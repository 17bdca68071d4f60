//! Points of interest: which map objects are points of interest, of which
//! type, and what the point of interest made from one holds.
use vstd::prelude::*;
use crate::addresses::{same_addr, Addr};
use crate::labels::{find_city, first_city, format_poi_label, label_text};
use crate::osm::{obj_tags, Node, OsmObj, Tags};
use crate::osm_reader::pairs_view;
use crate::places::{
    admins_country_codes, admins_zip_codes, copy_admins, copy_pairs, copy_properties, copy_strings,
    find_country_codes, get_zip_codes_from_admins, same_admins, Admin, I18nProperties, PoiType, ZoneType,
};
use crate::text::{int_text, lookup, push_all, push_int, strs};
use crate::places::{normalize_id, normalized_id};

verus! {

/// A condition on a tag: the object has the tag `key` with the value `value`.
#[derive(Debug, Clone)]
pub struct OsmTagsFilter {
    pub key: String,
    pub value: String,
}

/// Objects whose tags meet every filter are points of interest of the type `poi_type_id`.
#[derive(Debug, Clone)]
pub struct Rule {
    pub osm_tags_filters: Vec<OsmTagsFilter>,
    pub poi_type_id: String,
}

/// The types of points of interest and the rules that recognize them.
#[derive(Debug, Clone)]
pub struct PoiConfig {
    pub poi_types: Vec<PoiType>,
    pub rules: Vec<Rule>,
}

/// The settings of points of interest, as they appear in a configuration file.
#[derive(Debug, Clone)]
pub struct PoiWrapper {
    pub pois: crate::settings::osm2mimir::Poi,
}

/// Why a configuration of points of interest is refused.
#[derive(Debug, Clone)]
pub enum PoiError {
    /// A type identifier is declared more than once.
    PoiTypeDuplicated { id: String },
    /// A rule names a type identifier that is not declared.
    PoiTypeUndeclared { id: String },
}

/// The identifiers of the declared types, in order.
pub open spec fn type_ids(types: Seq<PoiType>) -> Seq<Seq<char>> {
    types.map_values(|t: PoiType| t.id@)
}

/// The first position from `j` on whose identifier already occurs before it.
pub open spec fn first_duplicate(ids: Seq<Seq<char>>, j: int) -> Option<int>
    decreases ids.len() - j,
{
    if j < 0 || j >= ids.len() {
        None
    } else if ids.take(j).contains(ids[j]) {
        Some(j)
    } else {
        first_duplicate(ids, j + 1)
    }
}

/// The first rule from `k` on whose type is not declared.
pub open spec fn first_undeclared(rules: Seq<Rule>, ids: Seq<Seq<char>>, k: int) -> Option<int>
    decreases rules.len() - k,
{
    if k < 0 || k >= rules.len() {
        None
    } else if !ids.contains(rules[k].poi_type_id@) {
        Some(k)
    } else {
        first_undeclared(rules, ids, k + 1)
    }
}

/// The tag filter holds for the tags.
pub open spec fn filter_holds(tags: Tags, f: OsmTagsFilter) -> bool {
    lookup(tags.entries@, f.key@) == Some(f.value@)
}

/// Every filter of the rule holds for the tags.
pub open spec fn rule_holds(tags: Tags, r: Rule) -> bool {
    forall|i: int|
        0 <= i < r.osm_tags_filters.len() ==> filter_holds(tags, #[trigger] r.osm_tags_filters@[i])
}

/// The first rule from `k` on that holds for the tags.
pub open spec fn first_rule(rules: Seq<Rule>, tags: Tags, k: int) -> Option<int>
    decreases rules.len() - k,
{
    if k < 0 || k >= rules.len() {
        None
    } else if rule_holds(tags, rules[k]) {
        Some(k)
    } else {
        first_rule(rules, tags, k + 1)
    }
}

/// The first declared type from `k` on with the identifier `id`.
pub open spec fn first_type(types: Seq<PoiType>, id: Seq<char>, k: int) -> Option<int>
    decreases types.len() - k,
{
    if k < 0 || k >= types.len() {
        None
    } else if types[k].id@ == id {
        Some(k)
    } else {
        first_type(types, id, k + 1)
    }
}

/// The type of point of interest of an object with these tags: the first
/// declared type whose identifier is that of the first rule that holds.
pub open spec fn poi_type_index(c: PoiConfig, tags: Tags) -> Option<int> {
    match first_rule(c.rules@, tags, 0) {
        Some(k) => first_type(c.poi_types@, c.rules@[k].poi_type_id@, 0),
        None => None,
    }
}

fn filter_holds_exec(tags: &Tags, f: &OsmTagsFilter) -> (r: bool)
    ensures
        r == filter_holds(*tags, *f),
{
    match tags.get(f.key.as_str()) {
        Some(v) => *v == f.value,
        None => false,
    }
}

fn rule_holds_exec(tags: &Tags, rule: &Rule) -> (r: bool)
    ensures
        r == rule_holds(*tags, *rule),
{
    let fs = &rule.osm_tags_filters;
    let mut i: usize = 0;
    while i < fs.len()
        invariant
            fs == rule.osm_tags_filters,
            i <= fs.len(),
            forall|j: int| 0 <= j < i ==> filter_holds(*tags, #[trigger] fs@[j]),
        decreases fs.len() - i,
    {
        if !filter_holds_exec(tags, &fs[i]) {
            assert(!filter_holds(*tags, fs@[i as int]));
            return false;
        }
        i = i + 1;
    }
    true
}

impl PoiConfig {
    /// Refuses a configuration where a type is declared twice or a rule names
    /// an undeclared type; the first problem found, in this order, is reported.
    pub fn check(&self) -> (r: Result<(), PoiError>)
        ensures
            match r {
                Ok(()) => first_duplicate(type_ids(self.poi_types@), 0) is None && first_undeclared(
                    self.rules@,
                    type_ids(self.poi_types@),
                    0,
                ) is None,
                Err(PoiError::PoiTypeDuplicated { id }) => (first_duplicate(
                    type_ids(self.poi_types@),
                    0,
                ) matches Some(j) && id@ == type_ids(self.poi_types@)[j]),
                Err(PoiError::PoiTypeUndeclared { id }) => first_duplicate(
                    type_ids(self.poi_types@),
                    0,
                ) is None && (first_undeclared(self.rules@, type_ids(self.poi_types@), 0) matches Some(
                    k,
                ) && id@ == self.rules@[k].poi_type_id@),
            },
    {
        let types = &self.poi_types;
        let ghost ids = type_ids(types@);
        let mut j: usize = 0;
        while j < types.len()
            invariant
                types == self.poi_types,
                j <= types.len(),
                ids == type_ids(types@),
                first_duplicate(ids, j as int) == first_duplicate(ids, 0),
            decreases types.len() - j,
        {
            let mut k: usize = 0;
            let mut seen = false;
            while k < j
                invariant
                    types == self.poi_types,
                    k <= j < types.len(),
                    ids == type_ids(types@),
                    !seen ==> forall|m: int| 0 <= m < k ==> ids[m] != ids[j as int],
                    seen ==> ids.take(j as int).contains(ids[j as int]),
                decreases j - k,
            {
                assert(ids[k as int] == types@[k as int].id@);
                assert(ids[j as int] == types@[j as int].id@);
                if types[k].id == types[j].id {
                    seen = true;
                    assert(ids.take(j as int)[k as int] == ids[j as int]);
                }
                k = k + 1;
            }
            if seen {
                assert(first_duplicate(ids, j as int) == Some(j as int));
                assert(ids[j as int] == types@[j as int].id@);
                return Err(PoiError::PoiTypeDuplicated { id: types[j].id.clone() });
            }
            assert(!ids.take(j as int).contains(ids[j as int])) by {
                assert forall|m: int| 0 <= m < j implies ids.take(j as int)[m] != ids[j as int] by {
                    assert(ids.take(j as int)[m] == ids[m]);
                }
            }
            assert(first_duplicate(ids, j as int) == first_duplicate(ids, j + 1));
            j = j + 1;
        }
        assert(first_duplicate(ids, j as int) is None);
        let rules = &self.rules;
        let mut k: usize = 0;
        while k < rules.len()
            invariant
                types == self.poi_types,
                rules == self.rules,
                k <= rules.len(),
                ids == type_ids(types@),
                first_duplicate(ids, 0) is None,
                first_undeclared(rules@, ids, k as int) == first_undeclared(rules@, ids, 0),
            decreases rules.len() - k,
        {
            let mut m: usize = 0;
            let mut found = false;
            while m < types.len()
                invariant
                    types == self.poi_types,
                    rules == self.rules,
                    m <= types.len(),
                    k < rules.len(),
                    ids == type_ids(types@),
                    first_duplicate(ids, 0) is None,
                    !found ==> forall|x: int| 0 <= x < m ==> ids[x] != rules@[k as int].poi_type_id@,
                    found ==> ids.contains(rules@[k as int].poi_type_id@),
                decreases types.len() - m,
            {
                assert(ids[m as int] == types@[m as int].id@);
                if types[m].id == rules[k].poi_type_id {
                    found = true;
                    assert(ids[m as int] == rules@[k as int].poi_type_id@);
                }
                m = m + 1;
            }
            if !found {
                assert(!ids.contains(rules@[k as int].poi_type_id@));
                assert(first_undeclared(rules@, ids, k as int) == Some(k as int));
                return Err(PoiError::PoiTypeUndeclared { id: rules[k].poi_type_id.clone() });
            }
            assert(first_undeclared(rules@, ids, k as int) == first_undeclared(rules@, ids, k + 1));
            k = k + 1;
        }
        assert(first_undeclared(rules@, ids, k as int) is None);
        Ok(())
    }

    fn find_poi_type(&self, tags: &Tags) -> (r: Option<usize>)
        ensures
            match r {
                Some(i) => poi_type_index(*self, *tags) == Some(i as int) && i < self.poi_types.len(),
                None => poi_type_index(*self, *tags) is None,
            },
    {
        let rules = &self.rules;
        let mut k: usize = 0;
        while k < rules.len()
            invariant
                rules == self.rules,
                k <= rules.len(),
                first_rule(rules@, *tags, k as int) == first_rule(rules@, *tags, 0),
            decreases rules.len() - k,
        {
            if rule_holds_exec(tags, &rules[k]) {
                let types = &self.poi_types;
                let mut m: usize = 0;
                while m < types.len()
                    invariant
                        rules == self.rules,
                        types == self.poi_types,
                        m <= types.len(),
                        k < rules.len(),
                        rule_holds(*tags, rules@[k as int]),
                        first_rule(rules@, *tags, k as int) == first_rule(rules@, *tags, 0),
                        first_type(types@, rules@[k as int].poi_type_id@, m as int) == first_type(
                            types@,
                            rules@[k as int].poi_type_id@,
                            0,
                        ),
                    decreases types.len() - m,
                {
                    if types[m].id == rules[k].poi_type_id {
                        assert(first_rule(rules@, *tags, k as int) == Some(k as int));
                        assert(first_type(types@, rules@[k as int].poi_type_id@, m as int) == Some(m as int));
                        return Some(m);
                    }
                    assert(first_type(types@, rules@[k as int].poi_type_id@, m as int) == first_type(
                        types@,
                        rules@[k as int].poi_type_id@,
                        m + 1,
                    ));
                    m = m + 1;
                }
                assert(first_rule(rules@, *tags, k as int) == Some(k as int));
                assert(first_type(types@, rules@[k as int].poi_type_id@, m as int) is None);
                return None;
            }
            assert(first_rule(rules@, *tags, k as int) == first_rule(rules@, *tags, k + 1));
            k = k + 1;
        }
        assert(first_rule(rules@, *tags, k as int) is None);
        None
    }

    /// The type of point of interest of an object with these tags (see `poi_type_index`).
    pub fn get_poi_type(&self, tags: &Tags) -> (r: Option<&PoiType>)
        ensures
            match r {
                Some(t) => (poi_type_index(*self, *tags) matches Some(i) && *t == self.poi_types@[i]),
                None => poi_type_index(*self, *tags) is None,
            },
    {
        match self.find_poi_type(tags) {
            Some(i) => Some(&self.poi_types[i]),
            None => None,
        }
    }

    /// The identifier of the type of point of interest of an object with these tags.
    pub fn get_poi_id(&self, tags: &Tags) -> (r: Option<&str>)
        ensures
            match r {
                Some(id) => (poi_type_index(*self, *tags) matches Some(i) && id@ == self.poi_types@[i].id@),
                None => poi_type_index(*self, *tags) is None,
            },
    {
        match self.find_poi_type(tags) {
            Some(i) => Some(self.poi_types[i].id.as_str()),
            None => None,
        }
    }

    /// Whether an object with these tags is a point of interest.
    pub fn is_poi(&self, tags: &Tags) -> (r: bool)
        ensures
            r == poi_type_index(*self, *tags) is Some,
    {
        self.find_poi_type(tags).is_some()
    }
}

/// The identifier of a point of interest made from a map object.
pub open spec fn poi_id_text(osm_type: Seq<char>, id: int) -> Seq<char> {
    "poi:osm:"@ + osm_type + ":"@ + int_text(id)
}

/// The identifier of a point of interest made from a map object of the given kind.
pub fn format_poi_id(osm_type: &str, id: i64) -> (r: String)
    ensures
        r@ == poi_id_text(osm_type@, id as int),
{
    let mut r = "poi:osm:".to_owned();
    push_all(&mut r, osm_type);
    push_all(&mut r, ":");
    push_int(&mut r, id);
    r
}

/// A point of interest, with a weight of the user's type.
#[derive(Debug)]
pub struct Poi<W> {
    pub id: String,
    pub name: String,
    pub label: String,
    pub zip_codes: Vec<String>,
    pub administrative_regions: Vec<Admin<W>>,
    pub weight: W,
    pub poi_type: PoiType,
    pub properties: Vec<(String, String)>,
    pub country_codes: Vec<String>,
    pub names: I18nProperties,
    pub labels: I18nProperties,
    /// The address found nearest to it, if one was looked for and found.
    pub address: Option<Addr<W>>,
    /// The points of interest it holds (a station's entrances, a mall's
    /// shops).
    pub children: Vec<Poi<W>>,
}

/// The weight of the first city among the regions, if there is a city.
pub open spec fn city_weight<W>(admins: Seq<Admin<W>>) -> Option<W> {
    match first_city(admins) {
        Some(i) => Some(admins[i].weight),
        None => None,
    }
}

/// Gives a point of interest the weight of its first city, when it has one.
pub fn compute_weight<W: Copy>(poi: Poi<W>) -> (r: Poi<W>)
    ensures
        r.weight == (match city_weight(poi.administrative_regions@) {
            Some(w) => w,
            None => poi.weight,
        }),
        r.id == poi.id,
        r.name == poi.name,
        r.label == poi.label,
        r.zip_codes == poi.zip_codes,
        r.administrative_regions == poi.administrative_regions,
        r.poi_type == poi.poi_type,
        r.properties == poi.properties,
        r.country_codes == poi.country_codes,
        r.names == poi.names,
        r.labels == poi.labels,
        r.address == poi.address,
        r.children == poi.children,
{
    match find_city(&poi.administrative_regions) {
        Some(i) => {
            let w = poi.administrative_regions[i].weight;
            Poi { weight: w, ..poi }
        },
        None => poi,
    }
}

/// Gives a point of interest the first of the addresses that a search
/// found nearest to it; with none, it is left as it is.
pub fn add_address<W>(poi: Poi<W>, addresses: Vec<Addr<W>>) -> (r: Poi<W>)
    ensures
        r.address == (if addresses.len() > 0 {
            Some(addresses@[0])
        } else {
            poi.address
        }),
        r.id == poi.id,
        r.name == poi.name,
        r.label == poi.label,
        r.zip_codes == poi.zip_codes,
        r.administrative_regions == poi.administrative_regions,
        r.weight == poi.weight,
        r.poi_type == poi.poi_type,
        r.properties == poi.properties,
        r.country_codes == poi.country_codes,
        r.names == poi.names,
        r.labels == poi.labels,
        r.children == poi.children,
{
    let mut addresses = addresses;
    if addresses.len() > 0 {
        let a = addresses.remove(0);
        Poi { address: Some(a), ..poi }
    } else {
        poi
    }
}

/// The word for the kind of a map object in identifiers.
pub open spec fn obj_kind_name(o: OsmObj) -> Seq<char> {
    match o {
        OsmObj::Node(..) => "node"@,
        OsmObj::Way(..) => "way"@,
        OsmObj::Relation(..) => "relation"@,
    }
}

/// The identifier of a map object.
pub open spec fn obj_id(o: OsmObj) -> int {
    match o {
        OsmObj::Node(n, _) => n.id as int,
        OsmObj::Way(w) => w.id as int,
        OsmObj::Relation(r) => r.id as int,
    }
}

/// The name of a point of interest: its `name` tag, else the name of its type.
pub open spec fn poi_name_text(tags: Tags, t: PoiType) -> Seq<char> {
    match lookup(tags.entries@, "name"@) {
        Some(n) => n,
        None => t.name@,
    }
}

/// The zip codes of a point of interest: its `addr:postcode` tag when it is
/// not empty, else the zip codes of its regions.
pub open spec fn poi_zip_codes<W>(tags: Tags, admins: Seq<Admin<W>>) -> Seq<Seq<char>> {
    match lookup(tags.entries@, "addr:postcode"@) {
        Some(z) => if z.len() > 0 {
            seq![z]
        } else {
            admins_zip_codes(admins)
        },
        None => admins_zip_codes(admins),
    }
}

/// The point of interest `p` is the one made from the map object with the
/// given regions: of the object's type, named after its `name` tag (else its
/// type), labelled with its first city, with the zip codes of its
/// `addr:postcode` tag (else of its regions), its tags as properties, and
/// the weight `zero`.
pub open spec fn poi_made<W>(p: Poi<W>, obj: OsmObj, matcher: PoiConfig, admins: Seq<Admin<W>>, zero: W) -> bool {
    &&& poi_type_index(matcher, obj_tags(obj)) matches Some(i)
    &&& p.poi_type == matcher.poi_types@[i]
    &&& p.id@ == poi_id_text(obj_kind_name(obj), obj_id(obj))
    &&& p.name@ == poi_name_text(obj_tags(obj), matcher.poi_types@[i])
    &&& p.label@ == label_text(p.name@, admins)
    &&& strs(p.zip_codes@) == poi_zip_codes(obj_tags(obj), admins)
    &&& strs(p.country_codes@) == admins_country_codes(admins)
    &&& p.administrative_regions@ == admins
    &&& p.weight == zero
    &&& p.properties@ == obj_tags(obj).entries@
    &&& p.names.0.len() == 0
    &&& p.labels.0.len() == 0
    &&& p.address is None
    &&& p.children.len() == 0
}

/// The postcode of a point of interest wins over its regions: when the
/// object's `addr:postcode` tag is present and not empty, it is the only zip
/// code of the point of interest made from the object, whatever zip codes
/// its regions carry; only when the tag is missing or empty does the point
/// of interest take the zip codes of its regions.
pub proof fn lemma_postcode_tag_wins<W>(p: Poi<W>, obj: OsmObj, matcher: PoiConfig, admins: Seq<Admin<W>>, zero: W)
    requires
        poi_made(p, obj, matcher, admins, zero),
    ensures
        match lookup(obj_tags(obj).entries@, "addr:postcode"@) {
            Some(z) => if z.len() > 0 {
                strs(p.zip_codes@) == seq![z]
            } else {
                strs(p.zip_codes@) == admins_zip_codes(admins)
            },
            None => strs(p.zip_codes@) == admins_zip_codes(admins),
        },
{
}

/// The point of interest made from a map object, given the regions of its
/// position and whether a position could be computed for it: none when the
/// object has no type of point of interest or no position. Its identifier
/// tells the kind and the identifier of the object, its weight is `zero`.
pub fn parse_poi<W>(obj: &OsmObj, matcher: &PoiConfig, admins: Vec<Admin<W>>, has_coord: bool, zero: W) -> (r: Option<Poi<W>>)
    ensures
        r is None <==> (poi_type_index(*matcher, obj_tags(*obj)) is None || !has_coord),
        r matches Some(p) ==> poi_made(p, *obj, *matcher, admins@, zero),
        r matches Some(p) ==> match lookup(obj_tags(*obj).entries@, "addr:postcode"@) {
            Some(z) => if z.len() > 0 {
                strs(p.zip_codes@) == seq![z]
            } else {
                strs(p.zip_codes@) == admins_zip_codes(admins@)
            },
            None => strs(p.zip_codes@) == admins_zip_codes(admins@),
        },
{
    let tags = obj.tags();
    let poi_type = match matcher.get_poi_type(tags) {
        Some(t) => PoiType { id: t.id.clone(), name: t.name.clone() },
        None => {
            return None;
        },
    };
    let id = match obj {
        OsmObj::Node(n, _) => format_poi_id("node", n.id),
        OsmObj::Way(w) => format_poi_id("way", w.id),
        OsmObj::Relation(rel) => format_poi_id("relation", rel.id),
    };
    let name = match tags.get("name") {
        Some(n) => n.clone(),
        None => poi_type.name.clone(),
    };
    if !has_coord {
        return None;
    }
    let zip_codes = match tags.get("addr:postcode") {
        Some(z) => {
            if z.as_str().is_empty() {
                get_zip_codes_from_admins(&admins)
            } else {
                let v = vec![z.clone()];
                assert(strs(v@) =~= seq![z@]);
                v
            }
        },
        None => get_zip_codes_from_admins(&admins),
    };
    let country_codes = find_country_codes(&admins);
    let label = format_poi_label(name.as_str(), &admins, &country_codes);
    let properties = copy_pairs(&tags.entries);
    Some(
        Poi {
            id,
            name,
            label,
            zip_codes,
            administrative_regions: admins,
            weight: zero,
            poi_type,
            properties,
            country_codes,
            names: I18nProperties(Vec::new()),
            labels: I18nProperties(Vec::new()),
            address: None,
            children: Vec::new(),
        },
    )
}

/// Why a point of interest of a POI file is not imported.
#[derive(Debug, Clone)]
pub enum PoiImportError {
    /// Its type is not declared in the file.
    UnrecognizedPoiType { details: String },
    /// No region was found for it.
    NoAdminFound { details: String },
}

/// The place (street or address) that a search found near a point: its
/// regions and its address.
#[derive(Debug, Clone)]
pub struct FoundPlace<W> {
    pub admins: Vec<Admin<W>>,
    pub address: Option<Addr<W>>,
}

/// The regions of a point of interest of a POI file: those of the place
/// found near it, if one was found, else those found at its position.
pub open spec fn chosen_admins<W>(place: Option<FoundPlace<W>>, found: Vec<Admin<W>>) -> Seq<Admin<W>> {
    match place {
        Some(p) => p.admins@,
        None => found@,
    }
}

/// The address of a point of interest of a POI file: that of the place
/// found near it, if one was found and has one.
pub open spec fn found_address<W>(place: Option<FoundPlace<W>>) -> Option<Addr<W>> {
    match place {
        Some(p) => p.address,
        None => None,
    }
}

/// The point of interest of a line of a POI file, given its declared types,
/// the place found near it (if one was found) and the regions found at its
/// position. Its regions and address are those of the place found, else it
/// has the regions found at its position and no address. Its identifier is
/// normalized with the prefix `poi`; its weight is that of its first city,
/// else `zero`.
pub fn into_poi<W: Copy>(
    id: &String,
    name: &String,
    poi_type_id: &String,
    properties: &Vec<(String, String)>,
    poi_types: &Vec<PoiType>,
    place: Option<FoundPlace<W>>,
    found: Vec<Admin<W>>,
    zero: W,
) -> (r: Result<Poi<W>, PoiImportError>)
    ensures
        match r {
            Err(PoiImportError::UnrecognizedPoiType { details }) => first_type(poi_types@, poi_type_id@, 0) is None
                && details@ == poi_type_id@,
            Err(PoiImportError::NoAdminFound { details }) => first_type(poi_types@, poi_type_id@, 0) is Some
                && chosen_admins(place, found).len() == 0 && details@ == "Could not find admins for POI "@
                + id@,
            Ok(p) => {
                let admins = chosen_admins(place, found);
                &&& first_type(poi_types@, poi_type_id@, 0) matches Some(i)
                &&& p.poi_type == poi_types@[i]
                &&& admins.len() > 0
                &&& p.id@ == normalized_id("poi"@, id@)
                &&& p.name == *name
                &&& p.label@ == label_text(name@, admins)
                &&& p.administrative_regions@ == admins
                &&& p.weight == (match city_weight(admins) {
                    Some(w) => w,
                    None => zero,
                })
                &&& p.zip_codes.len() == 0
                &&& p.properties@ == properties@
                &&& strs(p.country_codes@) == admins_country_codes(admins)
                &&& p.names.0.len() == 0
                &&& p.labels.0.len() == 0
                &&& p.address == found_address(place)
                &&& p.children.len() == 0
            },
        },
{
    let mut m: usize = 0;
    let mut found_type = false;
    while m < poi_types.len() && !found_type
        invariant
            m <= poi_types.len(),
            found_type ==> m < poi_types.len() && first_type(poi_types@, poi_type_id@, 0) == Some(m as int),
            !found_type ==> first_type(poi_types@, poi_type_id@, m as int) == first_type(poi_types@, poi_type_id@, 0),
        decreases poi_types.len() - m, (if found_type { 0int } else { 1int }),
    {
        if poi_types[m].id == *poi_type_id {
            found_type = true;
        } else {
            m = m + 1;
        }
    }
    if !found_type {
        return Err(PoiImportError::UnrecognizedPoiType { details: poi_type_id.clone() });
    }
    let poi_type = PoiType { id: poi_types[m].id.clone(), name: poi_types[m].name.clone() };
    let (admins, address) = match place {
        Some(p) => (p.admins, p.address),
        None => (found, None),
    };
    if admins.len() == 0 {
        let mut details = "Could not find admins for POI ".to_owned();
        push_all(&mut details, id.as_str());
        return Err(PoiImportError::NoAdminFound { details });
    }
    let weight = match find_city(&admins) {
        Some(i) => admins[i].weight,
        None => zero,
    };
    let country_codes = find_country_codes(&admins);
    let label = format_poi_label(name.as_str(), &admins, &country_codes);
    Ok(
        Poi {
            id: normalize_id("poi", id.as_str()),
            name: name.clone(),
            label,
            zip_codes: Vec::new(),
            administrative_regions: admins,
            weight,
            poi_type,
            properties: copy_pairs(properties),
            country_codes,
            names: I18nProperties(Vec::new()),
            labels: I18nProperties(Vec::new()),
            address,
            children: Vec::new(),
        },
    )
}

/// Two points of interest hold the same values, their children aside.
pub open spec fn same_poi<W>(a: Poi<W>, b: Poi<W>) -> bool {
    &&& a.id == b.id
    &&& a.name == b.name
    &&& a.label == b.label
    &&& a.zip_codes@ == b.zip_codes@
    &&& same_admins(a.administrative_regions@, b.administrative_regions@)
    &&& a.weight == b.weight
    &&& a.poi_type == b.poi_type
    &&& a.properties@ == b.properties@
    &&& a.country_codes@ == b.country_codes@
    &&& a.names.0@ == b.names.0@
    &&& a.labels.0@ == b.labels.0@
    &&& match (a.address, b.address) {
        (None, None) => true,
        (Some(x), Some(y)) => same_addr(x, y),
        _ => false,
    }
}

impl<W: Copy> Poi<W> {
    /// A copy of the point of interest, without children.
    pub fn copy_without_children(&self) -> (r: Poi<W>)
        ensures
            same_poi(r, *self),
            r.children.len() == 0,
    {
        Poi {
            id: self.id.clone(),
            name: self.name.clone(),
            label: self.label.clone(),
            zip_codes: copy_strings(&self.zip_codes),
            administrative_regions: copy_admins(&self.administrative_regions),
            weight: self.weight,
            poi_type: PoiType { id: self.poi_type.id.clone(), name: self.poi_type.name.clone() },
            properties: copy_pairs(&self.properties),
            country_codes: copy_strings(&self.country_codes),
            names: copy_properties(&self.names),
            labels: copy_properties(&self.labels),
            address: match &self.address {
                Some(a) => Some(a.copy()),
                None => None,
            },
            children: Vec::new(),
        }
    }
}

/// How a POI file refers to one of its points of interest by identifier.
pub open spec fn poi_ref(id: Seq<char>) -> Seq<char> {
    "poi:"@ + id
}

/// The first position, from `k` on, of a point of interest with the identifier.
pub open spec fn poi_position<W>(pois: Seq<Poi<W>>, id: Seq<char>, k: int) -> Option<int>
    decreases pois.len() - k,
{
    if k < 0 || k >= pois.len() {
        None
    } else if pois[k].id@ == id {
        Some(k)
    } else {
        poi_position(pois, id, k + 1)
    }
}

/// The first position, from `k` on, of a parent record naming the point of
/// interest with the identifier.
pub open spec fn parent_record(parents: Seq<(String, Vec<String>)>, id: Seq<char>, k: int) -> Option<int>
    decreases parents.len() - k,
{
    if k < 0 || k >= parents.len() {
        None
    } else if poi_ref(parents[k].0@) == id {
        Some(k)
    } else {
        parent_record(parents, id, k + 1)
    }
}

/// The positions of the children that are found among the points of
/// interest, in the order of `child_ids`; the others are skipped.
pub open spec fn found_children<W>(pois: Seq<Poi<W>>, child_ids: Seq<String>) -> Seq<int>
    decreases child_ids.len(),
{
    if child_ids.len() == 0 {
        Seq::empty()
    } else {
        let before = found_children(pois, child_ids.drop_last());
        match poi_position(pois, poi_ref(child_ids.last()@), 0) {
            Some(i) => before.push(i),
            None => before,
        }
    }
}

/// `c` holds copies, without children, of the points of interest at the
/// positions `idx`.
pub open spec fn children_of<W>(c: Seq<Poi<W>>, pois: Seq<Poi<W>>, idx: Seq<int>) -> bool {
    &&& c.len() == idx.len()
    &&& forall|m: int| #![trigger c[m]]
        0 <= m < c.len() ==> 0 <= idx[m] < pois.len() && same_poi(c[m], pois[idx[m]]) && c[m].children.len() == 0
}

fn find_poi<W>(pois: &Vec<Poi<W>>, id: &String) -> (r: Option<usize>)
    ensures
        match r {
            Some(i) => poi_position(pois@, id@, 0) == Some(i as int) && i < pois.len(),
            None => poi_position(pois@, id@, 0) is None,
        },
{
    let mut k: usize = 0;
    while k < pois.len()
        invariant
            k <= pois.len(),
            poi_position(pois@, id@, k as int) == poi_position(pois@, id@, 0),
        decreases pois.len() - k,
    {
        if pois[k].id == *id {
            return Some(k);
        }
        k = k + 1;
    }
    None
}

fn find_parent(parents: &Vec<(String, Vec<String>)>, id: &String) -> (r: Option<usize>)
    ensures
        match r {
            Some(k) => parent_record(parents@, id@, 0) == Some(k as int) && k < parents.len(),
            None => parent_record(parents@, id@, 0) is None,
        },
{
    let mut k: usize = 0;
    while k < parents.len()
        invariant
            k <= parents.len(),
            parent_record(parents@, id@, k as int) == parent_record(parents@, id@, 0),
        decreases parents.len() - k,
    {
        let mut r = "poi:".to_owned();
        push_all(&mut r, parents[k].0.as_str());
        proof {
            reveal_strlit("poi:");
        }
        if r == *id {
            return Some(k);
        }
        k = k + 1;
    }
    None
}

/// Copies, without children, of the children found among the points of
/// interest (see `found_children`).
fn collect_children<W: Copy>(pois: &Vec<Poi<W>>, child_ids: &Vec<String>) -> (r: Vec<Poi<W>>)
    ensures
        children_of(r@, pois@, found_children(pois@, child_ids@)),
{
    let mut r: Vec<Poi<W>> = Vec::new();
    let mut i: usize = 0;
    while i < child_ids.len()
        invariant
            i <= child_ids.len(),
            children_of(r@, pois@, found_children(pois@, child_ids@.take(i as int))),
        decreases child_ids.len() - i,
    {
        let ghost before = found_children(pois@, child_ids@.take(i as int));
        assert(child_ids@.take(i + 1).drop_last() =~= child_ids@.take(i as int));
        assert(child_ids@.take(i + 1).last() == child_ids@[i as int]);
        let mut id = "poi:".to_owned();
        push_all(&mut id, child_ids[i].as_str());
        proof {
            reveal_strlit("poi:");
        }
        match find_poi(pois, &id) {
            Some(k) => {
                let c = pois[k].copy_without_children();
                let ghost old_r = r@;
                r.push(c);
                proof {
                    let idx = before.push(k as int);
                    assert(found_children(pois@, child_ids@.take(i + 1)) == idx);
                    assert forall|m: int| 0 <= m < r@.len() implies 0 <= idx[m] < pois@.len() && same_poi(
                        #[trigger] r@[m],
                        pois@[idx[m]],
                    ) && r@[m].children.len() == 0 by {
                        if m < r@.len() - 1 {
                            assert(r@[m] == old_r[m]);
                        }
                    }
                }
            },
            None => {},
        }
        i = i + 1;
    }
    assert(child_ids@.take(child_ids.len() as int) =~= child_ids@);
    r
}

/// The points of interest of a POI file with their children: each one named
/// by a parent record (the first that names it, with the prefix `poi:`)
/// gets copies, without children, of the points of interest its record
/// lists that are found (the first with that identifier), in the record's
/// order; the others keep their children. Nothing else changes.
pub fn add_children<W: Copy>(pois: Vec<Poi<W>>, parents: &Vec<(String, Vec<String>)>) -> (r: Vec<Poi<W>>)
    ensures
        r.len() == pois.len(),
        forall|j: int| 0 <= j < r.len() ==> same_poi(#[trigger] r@[j], pois@[j]),
        forall|j: int| #![trigger r@[j]]
            0 <= j < r.len() ==> match parent_record(parents@, pois@[j].id@, 0) {
                Some(k) => children_of(r@[j].children@, pois@, found_children(pois@, parents@[k].1@)),
                None => r@[j].children == pois@[j].children,
            },
{
    let mut kids: Vec<Option<Vec<Poi<W>>>> = Vec::new();
    let mut j: usize = 0;
    while j < pois.len()
        invariant
            j <= pois.len(),
            kids.len() == j,
            forall|m: int| #![trigger kids@[m]]
                0 <= m < j ==> match parent_record(parents@, pois@[m].id@, 0) {
                    Some(k) => kids@[m] matches Some(c) && children_of(c@, pois@, found_children(pois@, parents@[k].1@)),
                    None => kids@[m] is None,
                },
        decreases pois.len() - j,
    {
        match find_parent(parents, &pois[j].id) {
            Some(k) => kids.push(Some(collect_children(&pois, &parents[k].1))),
            None => kids.push(None),
        }
        j = j + 1;
    }
    let ghost orig = pois@;
    let ghost all_kids = kids@;
    let n = pois.len();
    let mut rest = pois;
    let mut r: Vec<Poi<W>> = Vec::new();
    let mut j: usize = 0;
    while j < n
        invariant
            n == orig.len(),
            j <= orig.len(),
            all_kids.len() == orig.len(),
            rest@ == orig.skip(j as int),
            kids@ == all_kids.skip(j as int),
            r.len() == j,
            forall|m: int| 0 <= m < j ==> same_poi(#[trigger] r@[m], orig[m]),
            forall|m: int| #![trigger r@[m]]
                0 <= m < j ==> match all_kids[m] {
                    Some(c) => r@[m].children == c,
                    None => r@[m].children == orig[m].children,
                },
        decreases orig.len() - j,
    {
        let p = rest.remove(0);
        let c = kids.remove(0);
        assert(p == orig[j as int]);
        assert(c == all_kids[j as int]);
        let q = match c {
            Some(children) => Poi { children, ..p },
            None => p,
        };
        r.push(q);
        proof {
            assert(rest@ =~= orig.skip(j + 1));
            assert(kids@ =~= all_kids.skip(j + 1));
        }
        j = j + 1;
    }
    r
}

/// The positions of the objects that give a point of interest: those with a
/// type of point of interest and a position.
pub open spec fn poi_positions(objects: Seq<OsmObj>, matcher: PoiConfig, has_coord: Seq<bool>) -> Seq<int>
    decreases objects.len(),
{
    if objects.len() == 0 {
        seq![]
    } else {
        let p = poi_positions(objects.drop_last(), matcher, has_coord);
        let i = objects.len() - 1;
        if poi_type_index(matcher, obj_tags(objects[i])) is Some && has_coord[i] {
            p.push(i)
        } else {
            p
        }
    }
}

/// The points of interest of the map objects, in order; `admins` and
/// `has_coord` give, for each object, the regions of its position and
/// whether a position could be computed for it.
pub fn pois<W: Copy>(
    objects: &Vec<OsmObj>,
    matcher: &PoiConfig,
    admins: Vec<Vec<Admin<W>>>,
    has_coord: &Vec<bool>,
    zero: W,
) -> (r: Vec<Poi<W>>)
    requires
        admins.len() == objects.len(),
        has_coord.len() == objects.len(),
    ensures
        r.len() == poi_positions(objects@, *matcher, has_coord@).len(),
        forall|j: int|
            0 <= j < r.len() ==> {
                let i = #[trigger] poi_positions(objects@, *matcher, has_coord@)[j];
                &&& 0 <= i < objects.len()
                &&& poi_made(r@[j], objects@[i], *matcher, admins@[i]@, zero)
            },
{
    let ghost all_admins = admins@;
    let mut rest = admins;
    let mut r: Vec<Poi<W>> = Vec::new();
    let mut i: usize = 0;
    while i < objects.len()
        invariant
            has_coord.len() == objects.len(),
            all_admins.len() == objects.len(),
            i <= objects.len(),
            rest@ == all_admins.subrange(i as int, all_admins.len() as int),
            r.len() == poi_positions(objects@.take(i as int), *matcher, has_coord@).len(),
            forall|j: int|
                0 <= j < r.len() ==> {
                    let k = #[trigger] poi_positions(objects@.take(i as int), *matcher, has_coord@)[j];
                    &&& 0 <= k < i
                    &&& poi_made(r@[j], objects@[k], *matcher, all_admins[k]@, zero)
                },
        decreases objects.len() - i,
    {
        let a = rest.remove(0);
        assert(a == all_admins[i as int]);
        assert(rest@ =~= all_admins.subrange(i + 1, all_admins.len() as int));
        assert(objects@.take(i + 1).drop_last() =~= objects@.take(i as int));
        assert(objects@.take(i + 1)[i as int] == objects@[i as int]);
        let ghost before = poi_positions(objects@.take(i as int), *matcher, has_coord@);
        match parse_poi(&objects[i], matcher, a, has_coord[i], zero) {
            Some(p) => {
                r.push(p);
                assert(poi_positions(objects@.take(i + 1), *matcher, has_coord@) == before.push(i as int));
            },
            None => {
                assert(poi_positions(objects@.take(i + 1), *matcher, has_coord@) == before);
            },
        }
        i = i + 1;
    }
    assert(objects@.take(objects.len() as int) =~= objects@);
    r
}

} // verus!
