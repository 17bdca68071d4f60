use vstd::prelude::*;
use crate::text::{
    chars_of, find_key, lookup, lemma_strs_push, push_chars, remove_char, remove_first_occurrence, str_eq,
    strs, string_eq_str, without_char, remove_first,
};

verus! {

/// The kind of document stored in the search index.
#[derive(Debug, Clone, Copy, PartialEq, Eq, Structural)]
pub enum PlaceDocType {
    Admin,
    Street,
    Addr,
    Poi,
    Stop,
}

/// The index name of each kind of document.
pub open spec fn doc_type_name(t: PlaceDocType) -> Seq<char> {
    match t {
        PlaceDocType::Admin => "admin"@,
        PlaceDocType::Street => "street"@,
        PlaceDocType::Addr => "addr"@,
        PlaceDocType::Poi => "poi"@,
        PlaceDocType::Stop => "stop"@,
    }
}

impl PlaceDocType {
    pub fn as_str(&self) -> (s: &'static str)
        ensures
            s@ == doc_type_name(*self),
    {
        match self {
            PlaceDocType::Admin => "admin",
            PlaceDocType::Street => "street",
            PlaceDocType::Addr => "addr",
            PlaceDocType::Poi => "poi",
            PlaceDocType::Stop => "stop",
        }
    }
}

/// The kind of an administrative zone, from the smallest to the largest,
/// followed by zones that are not administrative.
#[derive(Debug, Clone, Copy, PartialEq, Eq, Structural)]
pub enum ZoneType {
    Suburb,
    CityDistrict,
    City,
    StateDistrict,
    State,
    CountryRegion,
    Country,
    NonAdministrative,
}

/// The position of a zone type in the order of zone types (an absent zone
/// type comes first, then the zone types in declaration order).
pub open spec fn zone_rank(z: Option<ZoneType>) -> nat {
    match z {
        None => 0,
        Some(ZoneType::Suburb) => 1,
        Some(ZoneType::CityDistrict) => 2,
        Some(ZoneType::City) => 3,
        Some(ZoneType::StateDistrict) => 4,
        Some(ZoneType::State) => 5,
        Some(ZoneType::CountryRegion) => 6,
        Some(ZoneType::Country) => 7,
        Some(ZoneType::NonAdministrative) => 8,
    }
}

/// The position of a zone type in the order of zone types.
pub fn zone_type_rank(z: Option<ZoneType>) -> (r: usize)
    ensures
        r == zone_rank(z),
        r <= 8,
{
    match z {
        None => 0,
        Some(ZoneType::Suburb) => 1,
        Some(ZoneType::CityDistrict) => 2,
        Some(ZoneType::City) => 3,
        Some(ZoneType::StateDistrict) => 4,
        Some(ZoneType::State) => 5,
        Some(ZoneType::CountryRegion) => 6,
        Some(ZoneType::Country) => 7,
        Some(ZoneType::NonAdministrative) => 8,
    }
}

/// A value given for a key (such as a name given for a language).
#[derive(Debug, Clone, PartialEq, Eq)]
pub struct Property {
    pub key: String,
    pub value: String,
}

/// Values given by language.
#[derive(Debug, Clone, PartialEq, Eq)]
pub struct I18nProperties(pub Vec<Property>);

/// The value of the first property whose key is `key`.
pub open spec fn property_lookup(props: Seq<Property>, key: Seq<char>) -> Option<Seq<char>>
    decreases props.len(),
{
    if props.len() == 0 {
        None
    } else if props[0].key@ == key {
        Some(props[0].value@)
    } else {
        property_lookup(props.drop_first(), key)
    }
}

impl I18nProperties {
    /// The value given for a language: that of the first property with this key.
    pub fn get(&self, lang: &str) -> (r: Option<&str>)
        ensures
            match r {
                Some(v) => property_lookup(self.0@, lang@) == Some(v@),
                None => property_lookup(self.0@, lang@) is None,
            },
    {
        let mut i: usize = 0;
        assert(self.0@.subrange(0, self.0.len() as int) =~= self.0@);
        while i < self.0.len()
            invariant
                i <= self.0.len(),
                property_lookup(self.0@.subrange(i as int, self.0.len() as int), lang@)
                    == property_lookup(self.0@, lang@),
            decreases self.0.len() - i,
        {
            let ghost rest = self.0@.subrange(i as int, self.0.len() as int);
            assert(rest[0] == self.0@[i as int]);
            if string_eq_str(&self.0[i].key, lang) {
                return Some(self.0[i].value.as_str());
            }
            assert(rest.drop_first() =~= self.0@.subrange(i + 1, self.0.len() as int));
            i = i + 1;
        }
        None
    }

    /// Properties made of (key, value) pairs, in order.
    pub fn from_pairs(pairs: Vec<(String, String)>) -> (r: I18nProperties)
        ensures
            r.0.len() == pairs.len(),
            forall|i: int|
                0 <= i < pairs.len() ==> (#[trigger] r.0@[i]).key == pairs@[i].0 && r.0@[i].value
                    == pairs@[i].1,
    {
        let mut props: Vec<Property> = Vec::new();
        let mut rest = pairs;
        let ghost all = rest@;
        let mut i: usize = 0;
        while i < rest.len()
            invariant
                rest@ == all,
                i <= rest.len(),
                props.len() == i,
                forall|j: int|
                    0 <= j < i ==> (#[trigger] props@[j]).key == all[j].0 && props@[j].value
                        == all[j].1,
            decreases rest.len() - i,
        {
            let key = rest[i].0.clone();
            let value = rest[i].1.clone();
            props.push(Property { key, value });
            i = i + 1;
        }
        I18nProperties(props)
    }
}

/// A kind of point of interest.
#[derive(Debug, Clone, PartialEq, Eq)]
pub struct PoiType {
    pub id: String,
    pub name: String,
}

/// A commercial mode of public transport.
#[derive(Debug, Clone, PartialEq, Eq)]
pub struct CommercialMode {
    pub id: String,
    pub name: String,
}

/// A physical mode of public transport.
#[derive(Debug, Clone, PartialEq, Eq)]
pub struct PhysicalMode {
    pub id: String,
    pub name: String,
}

/// A public transport network.
#[derive(Debug, Clone, PartialEq, Eq)]
pub struct Network {
    pub id: String,
    pub name: String,
}

/// The publisher of a transport data feed.
#[derive(Debug, Clone, PartialEq, Eq)]
pub struct FeedPublisher {
    pub id: String,
    pub license: String,
    pub name: String,
    pub url: String,
}

/// A comment attached to a stop.
#[derive(Debug, Clone, PartialEq, Eq)]
pub struct Comment {
    pub name: String,
}

/// A document that can be stored in the search index.
pub trait MimirObject {
    /// Whether the document carries geographic data.
    fn is_geo_data() -> bool;

    /// The name of the document's type in the index.
    fn doc_type() -> &'static str;

    /// The identifier of the document in the index, if it has one.
    fn es_id(&self) -> Option<String>;
}

/// The key under which a country code is stored among an admin's codes.
pub open spec fn country_code_key() -> Seq<char> {
    "ISO3166-1:alpha2"@
}

/// The country code among the codes of an admin, if there is one.
pub fn get_country_code(codes: &Vec<(String, String)>) -> (r: Option<String>)
    ensures
        match r {
            Some(c) => lookup(codes@, country_code_key()) == Some(c@),
            None => lookup(codes@, country_code_key()) is None,
        },
{
    proof {
        reveal_strlit("ISO3166-1:alpha2");
    }
    match find_key(codes, "ISO3166-1:alpha2") {
        Some(i) => Some(codes[i].1.clone()),
        None => None,
    }
}

/// An identifier with its prefix: `prefix:id` with the spaces of `id`
/// removed; for the prefix `stop_area`, the first `StopArea:` found in `id`
/// is removed as well.
pub open spec fn normalized_id(prefix: Seq<char>, id: Seq<char>) -> Seq<char> {
    let body = if prefix == "stop_area"@ {
        remove_first(id, "StopArea:"@)
    } else {
        id
    };
    prefix + seq![':'] + without_char(body, ' ')
}

/// Gives an identifier its prefix, removing spaces (see `normalized_id`).
pub fn normalize_id(prefix: &str, id: &str) -> (r: String)
    ensures
        r@ == normalized_id(prefix@, id@),
{
    let idc = chars_of(id);
    let body = if str_eq(prefix, "stop_area") {
        let pat = chars_of("StopArea:");
        remove_first_occurrence(&idc, &pat)
    } else {
        idc
    };
    let cleaned = remove_char(&body, ' ');
    let mut r = prefix.to_owned();
    r.push(':');
    push_chars(&mut r, &cleaned);
    r
}

/// The value `true`, used as a default.
pub fn default_true() -> (r: bool)
    ensures
        r,
{
    true
}

/// An administrative region, as the rest of the library reads it. Its
/// weight is of a type chosen by the user (a population, a normalized score).
#[derive(Debug, Clone)]
pub struct Admin<W> {
    pub id: String,
    pub level: u32,
    pub name: String,
    pub label: String,
    pub zip_codes: Vec<String>,
    pub weight: W,
    pub insee: String,
    pub zone_type: Option<ZoneType>,
    pub parent_id: Option<String>,
    pub codes: Vec<(String, String)>,
    pub country_codes: Vec<String>,
    pub names: I18nProperties,
    pub labels: I18nProperties,
}

impl<W> Admin<W> {
    /// Whether the region is a city.
    pub fn is_city(&self) -> (r: bool)
        ensures
            r == (self.zone_type == Some(ZoneType::City)),
    {
        match self.zone_type {
            Some(ZoneType::City) => true,
            _ => false,
        }
    }
}

/// The highest level among the regions that have zip codes (0 when none has).
pub open spec fn zip_level<W>(admins: Seq<Admin<W>>) -> u32
    decreases admins.len(),
{
    if admins.len() == 0 {
        0
    } else {
        let l = zip_level(admins.drop_last());
        let a = admins.last();
        if a.level > l && a.zip_codes.len() > 0 {
            a.level
        } else {
            l
        }
    }
}

/// The zip codes of the regions of the given level, in order.
pub open spec fn zips_at_level<W>(admins: Seq<Admin<W>>, level: u32) -> Seq<Seq<char>>
    decreases admins.len(),
{
    if admins.len() == 0 {
        seq![]
    } else {
        let p = zips_at_level(admins.drop_last(), level);
        if admins.last().level == level {
            p + strs(admins.last().zip_codes@)
        } else {
            p
        }
    }
}

/// The zip codes of a place: those of its regions of the highest level that
/// has zip codes.
pub open spec fn admins_zip_codes<W>(admins: Seq<Admin<W>>) -> Seq<Seq<char>> {
    let level = zip_level(admins);
    if level == 0 {
        seq![]
    } else {
        zips_at_level(admins, level)
    }
}

/// The zip codes of a place, from its administrative regions (see `admins_zip_codes`).
pub fn get_zip_codes_from_admins<W>(admins: &Vec<Admin<W>>) -> (r: Vec<String>)
    ensures
        strs(r@) == admins_zip_codes(admins@),
{
    let mut level: u32 = 0;
    let mut i: usize = 0;
    while i < admins.len()
        invariant
            i <= admins.len(),
            level == zip_level(admins@.take(i as int)),
        decreases admins.len() - i,
    {
        assert(admins@.take(i + 1).drop_last() =~= admins@.take(i as int));
        if admins[i].level > level && admins[i].zip_codes.len() > 0 {
            level = admins[i].level;
        }
        i = i + 1;
    }
    assert(admins@.take(admins.len() as int) =~= admins@);
    let mut r: Vec<String> = Vec::new();
    if level == 0 {
        return r;
    }
    let mut i: usize = 0;
    while i < admins.len()
        invariant
            i <= admins.len(),
            strs(r@) == zips_at_level(admins@.take(i as int), level),
        decreases admins.len() - i,
    {
        assert(admins@.take(i + 1).drop_last() =~= admins@.take(i as int));
        assert(admins@.take(i + 1).last() == admins@[i as int]);
        if admins[i].level == level {
            let ghost before = strs(r@);
            let zs = &admins[i].zip_codes;
            let mut k: usize = 0;
            while k < zs.len()
                invariant
                    k <= zs.len(),
                    strs(r@) == before + strs(zs@.take(k as int)),
                decreases zs.len() - k,
            {
                proof {
                    lemma_strs_push(r@, zs@[k as int]);
                }
                r.push(zs[k].clone());
                k = k + 1;
                assert(strs(zs@.take(k as int)) =~= strs(zs@.take(k - 1)).push(zs@[k - 1]@));
                assert(strs(r@) =~= before + strs(zs@.take(k as int)));
            }
            assert(zs@.take(zs.len() as int) =~= zs@);
        }
        i = i + 1;
    }
    assert(admins@.take(admins.len() as int) =~= admins@);
    r
}

/// The country codes found among the codes of the regions, in order.
pub open spec fn admins_country_codes<W>(admins: Seq<Admin<W>>) -> Seq<Seq<char>>
    decreases admins.len(),
{
    if admins.len() == 0 {
        seq![]
    } else {
        let p = admins_country_codes(admins.drop_last());
        match lookup(admins.last().codes@, country_code_key()) {
            Some(c) => p.push(c),
            None => p,
        }
    }
}

/// The country codes of the regions that have one, in order.
pub fn find_country_codes<W>(admins: &Vec<Admin<W>>) -> (r: Vec<String>)
    ensures
        strs(r@) == admins_country_codes(admins@),
{
    let mut r: Vec<String> = Vec::new();
    let mut i: usize = 0;
    while i < admins.len()
        invariant
            i <= admins.len(),
            strs(r@) == admins_country_codes(admins@.take(i as int)),
        decreases admins.len() - i,
    {
        assert(admins@.take(i + 1).drop_last() =~= admins@.take(i as int));
        assert(admins@.take(i + 1).last() == admins@[i as int]);
        match get_country_code(&admins[i].codes) {
            Some(c) => {
                proof {
                    lemma_strs_push(r@, c);
                }
                r.push(c);
            },
            None => {},
        }
        i = i + 1;
    }
    assert(admins@.take(admins.len() as int) =~= admins@);
    r
}

/// A copy of a list of strings.
pub fn copy_strings(v: &Vec<String>) -> (r: Vec<String>)
    ensures
        r@ == v@,
{
    let mut r: Vec<String> = Vec::new();
    let mut i: usize = 0;
    while i < v.len()
        invariant
            i <= v.len(),
            r@ == v@.take(i as int),
        decreases v.len() - i,
    {
        r.push(v[i].clone());
        i = i + 1;
        assert(r@ =~= v@.take(i as int));
    }
    assert(v@.take(v.len() as int) =~= v@);
    r
}

/// A copy of (key, value) pairs.
pub fn copy_pairs(v: &Vec<(String, String)>) -> (r: Vec<(String, String)>)
    ensures
        r@ == v@,
{
    let mut r: Vec<(String, String)> = Vec::new();
    let mut i: usize = 0;
    while i < v.len()
        invariant
            i <= v.len(),
            r@ == v@.take(i as int),
        decreases v.len() - i,
    {
        r.push((v[i].0.clone(), v[i].1.clone()));
        i = i + 1;
        assert(r@ =~= v@.take(i as int));
    }
    assert(v@.take(v.len() as int) =~= v@);
    r
}

/// A copy of properties.
pub fn copy_properties(p: &I18nProperties) -> (r: I18nProperties)
    ensures
        r.0@ == p.0@,
{
    let v = &p.0;
    let mut r: Vec<Property> = Vec::new();
    let mut i: usize = 0;
    while i < v.len()
        invariant
            i <= v.len(),
            r@ == v@.take(i as int),
        decreases v.len() - i,
    {
        r.push(Property { key: v[i].key.clone(), value: v[i].value.clone() });
        i = i + 1;
        assert(r@ =~= v@.take(i as int));
    }
    assert(v@.take(v.len() as int) =~= v@);
    I18nProperties(r)
}

/// Two regions hold the same values.
pub open spec fn same_admin<W>(a: Admin<W>, b: Admin<W>) -> bool {
    &&& a.id == b.id
    &&& a.level == b.level
    &&& a.name == b.name
    &&& a.label == b.label
    &&& a.zip_codes@ == b.zip_codes@
    &&& a.weight == b.weight
    &&& a.insee == b.insee
    &&& a.zone_type == b.zone_type
    &&& a.parent_id == b.parent_id
    &&& a.codes@ == b.codes@
    &&& a.country_codes@ == b.country_codes@
    &&& a.names.0@ == b.names.0@
    &&& a.labels.0@ == b.labels.0@
}

/// Two lists of regions hold the same values, in the same order.
pub open spec fn same_admins<W>(a: Seq<Admin<W>>, b: Seq<Admin<W>>) -> bool {
    a.len() == b.len() && forall|i: int| 0 <= i < a.len() ==> same_admin(#[trigger] a[i], b[i])
}

impl<W: Copy> Admin<W> {
    /// A copy of the region.
    pub fn copy(&self) -> (r: Admin<W>)
        ensures
            same_admin(r, *self),
    {
        Admin {
            id: self.id.clone(),
            level: self.level,
            name: self.name.clone(),
            label: self.label.clone(),
            zip_codes: copy_strings(&self.zip_codes),
            weight: self.weight,
            insee: self.insee.clone(),
            zone_type: self.zone_type,
            parent_id: match &self.parent_id {
                Some(p) => Some(p.clone()),
                None => None,
            },
            codes: copy_pairs(&self.codes),
            country_codes: copy_strings(&self.country_codes),
            names: copy_properties(&self.names),
            labels: copy_properties(&self.labels),
        }
    }
}

/// A copy of a list of regions.
pub fn copy_admins<W: Copy>(v: &Vec<Admin<W>>) -> (r: Vec<Admin<W>>)
    ensures
        same_admins(r@, v@),
{
    let mut r: Vec<Admin<W>> = Vec::new();
    let mut i: usize = 0;
    while i < v.len()
        invariant
            i <= v.len(),
            r.len() == i,
            forall|k: int| 0 <= k < i ==> same_admin(#[trigger] r@[k], v@[k]),
        decreases v.len() - i,
    {
        r.push(v[i].copy());
        i = i + 1;
    }
    r
}

/// A document of the search index.
#[derive(Debug)]
pub enum Place<W> {
    Admin(Admin<W>),
    Street(crate::streets::Street<W>),
    Addr(crate::addresses::Addr<W>),
    Poi(crate::poi::Poi<W>),
    Stop(crate::stops::Stop<W>),
}

/// The label of a document.
pub open spec fn place_label<W>(p: Place<W>) -> Seq<char> {
    match p {
        Place::Admin(o) => o.label@,
        Place::Street(o) => o.label@,
        Place::Addr(o) => o.label@,
        Place::Poi(o) => o.label@,
        Place::Stop(o) => o.label@,
    }
}

impl<W> Place<W> {
    pub fn is_admin(&self) -> (r: bool)
        ensures
            r == self is Admin,
    {
        match self {
            Place::Admin(_) => true,
            _ => false,
        }
    }

    pub fn is_street(&self) -> (r: bool)
        ensures
            r == self is Street,
    {
        match self {
            Place::Street(_) => true,
            _ => false,
        }
    }

    pub fn is_addr(&self) -> (r: bool)
        ensures
            r == self is Addr,
    {
        match self {
            Place::Addr(_) => true,
            _ => false,
        }
    }

    pub fn is_poi(&self) -> (r: bool)
        ensures
            r == self is Poi,
    {
        match self {
            Place::Poi(_) => true,
            _ => false,
        }
    }

    pub fn is_stop(&self) -> (r: bool)
        ensures
            r == self is Stop,
    {
        match self {
            Place::Stop(_) => true,
            _ => false,
        }
    }

    /// The point of interest, when the document is one.
    pub fn poi(&self) -> (r: Option<&crate::poi::Poi<W>>)
        ensures
            match r {
                Some(p) => *self == Place::<W>::Poi(*p),
                None => !(self is Poi),
            },
    {
        match self {
            Place::Poi(p) => Some(p),
            _ => None,
        }
    }

    /// The label of the document.
    pub fn label(&self) -> (r: &str)
        ensures
            r@ == place_label(*self),
    {
        match self {
            Place::Admin(o) => o.label.as_str(),
            Place::Street(o) => o.label.as_str(),
            Place::Addr(o) => o.label.as_str(),
            Place::Poi(o) => o.label.as_str(),
            Place::Stop(o) => o.label.as_str(),
        }
    }
}

} // verus!
