//! Addresses from the BANO and OpenAddresses files: identifiers, regions,
//! labels, weights and zip codes. Positions are written by the caller.
use vstd::prelude::*;
use crate::labels::{
    find_city,
    addr_component, component_name, first_city, format_addr_name_and_label, format_street_label,
    label_text, short_addr_text, short_label, AddrComponent,
};
use crate::places::{
    admins_country_codes, copy_strings, find_country_codes, same_admin, same_admins, Admin,
    I18nProperties, ZoneType,
};
use crate::poi::city_weight;
use crate::streets::{same_street, Street};
use crate::settings::settings_with_prefix;
use crate::text::{
    byte_boundary, byte_prefix, take_bytes, utf8_width, ends_with, has_prefix, has_suffix, starts_with,
    chars_of, id_text, lookup, push_all, push_chars, sanitize_for_id, split_on, split_spec, strs,
    string_from_chars, trim_leading, trim_start_char,
};

verus! {

/// An address to be indexed.
#[derive(Debug, Clone)]
pub struct Addr<W> {
    pub id: String,
    pub name: String,
    pub label: String,
    pub house_number: String,
    pub street: Street<W>,
    pub weight: W,
    pub zip_codes: Vec<String>,
    pub country_codes: Vec<String>,
}

/// Two addresses hold the same values.
pub open spec fn same_addr<W>(a: Addr<W>, b: Addr<W>) -> bool {
    &&& a.id == b.id
    &&& a.name == b.name
    &&& a.label == b.label
    &&& a.house_number == b.house_number
    &&& same_street(a.street, b.street)
    &&& a.weight == b.weight
    &&& a.zip_codes@ == b.zip_codes@
    &&& a.country_codes@ == b.country_codes@
}

impl<W: Copy> Addr<W> {
    /// A copy of the address.
    pub fn copy(&self) -> (r: Addr<W>)
        ensures
            same_addr(r, *self),
    {
        Addr {
            id: self.id.clone(),
            name: self.name.clone(),
            label: self.label.clone(),
            house_number: self.house_number.clone(),
            street: self.street.copy(),
            weight: self.weight,
            zip_codes: copy_strings(&self.zip_codes),
            country_codes: copy_strings(&self.country_codes),
        }
    }
}

/// Why a BANO record is refused.
#[derive(Debug, Clone)]
pub enum AddrError {
    /// The identifier is too short to hold an INSEE code.
    InvalidInseeId { id: String },
    /// The identifier is too short to hold a FANTOIR code.
    InvalidFantoirId { id: String },
}

/// A record of the BANO file, without its position.
#[derive(Debug, Clone)]
pub struct Bano {
    pub id: String,
    pub house_number: String,
    pub street: String,
    pub zip: String,
    pub city: String,
    pub src: String,
}

impl Bano {
    /// The INSEE code of the municipality: the first five bytes of the
    /// identifier without their leading zeros; an error when the identifier
    /// is shorter than five bytes.
    pub fn insee(&self) -> (r: Result<String, AddrError>)
        requires
            byte_boundary(self.id@, 5),
        ensures
            match r {
                Ok(code) => utf8_width(self.id@) >= 5 && code@ == trim_leading(take_bytes(self.id@, 5), '0'),
                Err(AddrError::InvalidInseeId { id }) => utf8_width(self.id@) < 5 && id@ == self.id@,
                Err(_) => false,
            },
    {
        match byte_prefix(self.id.as_str(), 5) {
            Some(p) => {
                let t = trim_start_char(&p, '0');
                Ok(string_from_chars(&t))
            },
            None => Err(AddrError::InvalidInseeId { id: self.id.clone() }),
        }
    }

    /// The FANTOIR code of the street: the first ten bytes of the
    /// identifier; an error when it is shorter than ten bytes.
    pub fn fantoir(&self) -> (r: Result<String, AddrError>)
        requires
            byte_boundary(self.id@, 10),
        ensures
            match r {
                Ok(code) => utf8_width(self.id@) >= 10 && code@ == take_bytes(self.id@, 10),
                Err(AddrError::InvalidFantoirId { id }) => utf8_width(self.id@) < 10 && id@ == self.id@,
                Err(_) => false,
            },
    {
        match byte_prefix(self.id.as_str(), 10) {
            Some(p) => Ok(string_from_chars(&p)),
            None => Err(AddrError::InvalidFantoirId { id: self.id.clone() }),
        }
    }
}

/// The regions whose level differs from `level`, in order.
pub open spec fn other_levels<W>(admins: Seq<Admin<W>>, level: u32) -> Seq<Admin<W>>
    decreases admins.len(),
{
    if admins.len() == 0 {
        seq![]
    } else {
        let p = other_levels(admins.drop_last(), level);
        if admins.last().level != level {
            p.push(admins.last())
        } else {
            p
        }
    }
}

/// Keeps the regions whose level differs from `level`.
fn retain_other_levels<W>(admins: Vec<Admin<W>>, level: u32) -> (r: Vec<Admin<W>>)
    ensures
        r@ == other_levels(admins@, level),
{
    let ghost orig = admins@;
    assert(orig.len() == admins.len());
    let mut src = admins;
    let mut kept: Vec<Admin<W>> = Vec::new();
    let mut i: usize = 0;
    while src.len() > 0
        invariant
            orig.len() <= usize::MAX,
            i + src.len() == orig.len(),
            src@ == orig.subrange(i as int, orig.len() as int),
            kept@ == other_levels(orig.take(i as int), level),
        decreases src.len(),
    {
        let a = src.remove(0);
        assert(a == orig[i as int]);
        assert(orig.take(i + 1).drop_last() =~= orig.take(i as int));
        assert(orig.take(i + 1).last() == orig[i as int]);
        if a.level != level {
            kept.push(a);
        }
        i = i + 1;
        assert(src@ =~= orig.subrange(i as int, orig.len() as int));
    }
    assert(orig.take(orig.len() as int) =~= orig);
    kept
}

/// The regions of a BANO address: those found at its position, where the
/// region known for its INSEE code, if any, replaces those of its level.
pub open spec fn bano_admins<W>(found: Seq<Admin<W>>, by_insee: Option<Admin<W>>) -> Seq<Admin<W>> {
    match by_insee {
        Some(a) => other_levels(found, a.level).push(a),
        None => found,
    }
}

/// The region registered under a key, first match first.
pub open spec fn admin_lookup<W>(entries: Seq<(String, Admin<W>)>, key: Seq<char>) -> Option<Admin<W>>
    decreases entries.len(),
{
    if entries.len() == 0 {
        None
    } else if entries[0].0@ == key {
        Some(entries[0].1)
    } else {
        admin_lookup(entries.drop_first(), key)
    }
}

/// The weight of the first region of level 8, if there is one.
pub open spec fn level8_weight<W>(admins: Seq<Admin<W>>) -> Option<W>
    decreases admins.len(),
{
    if admins.len() == 0 {
        None
    } else if admins[0].level == 8 {
        Some(admins[0].weight)
    } else {
        level8_weight(admins.drop_first())
    }
}

/// The city named in a label of a BANO address: the first city among the
/// regions, else the city of the record.
pub open spec fn bano_label_city<W>(admins: Seq<Admin<W>>, city: Seq<char>) -> Seq<char> {
    match first_city(admins) {
        Some(i) => admins[i].name@,
        None => city,
    }
}

/// The identifier of an address: `addr:{lon};{lat}:{house number}` with the
/// house number made fit for an identifier (see `id_text`).
pub open spec fn addr_id_text(lon: Seq<char>, lat: Seq<char>, house_number: Seq<char>) -> Seq<char> {
    "addr:"@ + lon + ";"@ + lat + ":"@ + id_text(house_number)
}

/// Writes the identifier of an address (see `addr_id_text`).
pub fn addr_id(lon: &str, lat: &str, house_number: &str) -> (r: String)
    ensures
        r@ == addr_id_text(lon@, lat@, house_number@),
{
    let mut r = "addr:".to_owned();
    push_all(&mut r, lon);
    push_all(&mut r, ";");
    push_all(&mut r, lat);
    push_all(&mut r, ":");
    let hn = sanitize_for_id(house_number);
    push_all(&mut r, hn.as_str());
    r
}

/// The cities among the regions, in order.
pub open spec fn cities_of<W>(admins: Seq<Admin<W>>) -> Seq<Admin<W>>
    decreases admins.len(),
{
    if admins.len() == 0 {
        seq![]
    } else if admins[0].zone_type == Some(ZoneType::City) {
        seq![admins[0]] + cities_of(admins.drop_first())
    } else {
        cities_of(admins.drop_first())
    }
}

proof fn lemma_cities_of_push<W>(s: Seq<Admin<W>>, x: Admin<W>)
    ensures
        cities_of(s.push(x)) == cities_of(s) + (if x.zone_type == Some(ZoneType::City) {
            seq![x]
        } else {
            seq![]
        }),
    decreases s.len(),
{
    if s.len() == 0 {
        assert(s.push(x).drop_first() =~= s);
        assert(cities_of(s.push(x).drop_first()) =~= seq![]);
    } else {
        assert(s.push(x).drop_first() =~= s.drop_first().push(x));
        lemma_cities_of_push(s.drop_first(), x);
    }
}

/// The label city of the cities of the regions followed by a city: the
/// first city of the regions, else the added city.
proof fn lemma_first_city_of_zones<W>(s: Seq<Admin<W>>, z: Seq<Admin<W>>, c: Admin<W>)
    requires
        z.len() == cities_of(s).len() + 1,
        forall|k: int| 0 <= k < cities_of(s).len() ==> same_admin(#[trigger] z[k], cities_of(s)[k]),
        z[cities_of(s).len() as int] == c,
        c.zone_type == Some(ZoneType::City),
    ensures
        first_city(z) == Some(0int),
        z[0].name@ == (match first_city(s) {
            Some(i) => s[i].name@,
            None => c.name@,
        }),
    decreases s.len(),
{
    lemma_first_city_cities(s);
    assert(z[0].zone_type == Some(ZoneType::City));
}

proof fn lemma_first_city_cities<W>(s: Seq<Admin<W>>)
    ensures
        cities_of(s).len() == 0 <==> first_city(s) is None,
        first_city(s) matches Some(i) ==> 0 <= i < s.len() && cities_of(s)[0] == s[i],
        forall|k: int| 0 <= k < cities_of(s).len() ==> (#[trigger] cities_of(s)[k]).zone_type == Some(ZoneType::City),
    decreases s.len(),
{
    if s.len() > 0 {
        lemma_first_city_cities(s.drop_first());
        let t = cities_of(s.drop_first());
        if s[0].zone_type == Some(ZoneType::City) {
            assert forall|k: int| 0 <= k < cities_of(s).len() implies (#[trigger] cities_of(s)[k]).zone_type == Some(ZoneType::City) by {
                if k > 0 {
                    assert(cities_of(s)[k] == t[k - 1]);
                }
            }
        }
    }
}

/// When every region is a city, only the city part of an address is filled,
/// with the name of the last one.
proof fn lemma_components_of_cities<W>(z: Seq<Admin<W>>)
    requires
        z.len() > 0,
        forall|k: int| 0 <= k < z.len() ==> (#[trigger] z[k]).zone_type == Some(ZoneType::City),
    ensures
        component_name(z, AddrComponent::City) == Some(z.last().name@),
        component_name(z, AddrComponent::Suburb) is None,
        component_name(z, AddrComponent::County) is None,
        component_name(z, AddrComponent::State) is None,
        component_name(z, AddrComponent::Country) is None,
    decreases z.len(),
{
    assert(z.last().zone_type == Some(ZoneType::City));
    if z.len() > 1 {
        assert forall|k: int| 0 <= k < z.drop_last().len() implies (#[trigger] z.drop_last()[k]).zone_type == Some(ZoneType::City) by {
            assert(z.drop_last()[k] == z[k]);
        }
        lemma_components_of_cities(z.drop_last());
    } else {
        assert(z.drop_last().len() == 0);
    }
}

/// The cities among the regions, copied.
fn copy_cities<W: Copy>(admins: &Vec<Admin<W>>) -> (r: Vec<Admin<W>>)
    ensures
        r.len() == cities_of(admins@).len(),
        forall|k: int| 0 <= k < r.len() ==> same_admin(#[trigger] r@[k], cities_of(admins@)[k]),
{
    let mut r: Vec<Admin<W>> = Vec::new();
    let mut i: usize = 0;
    while i < admins.len()
        invariant
            i <= admins.len(),
            r.len() == cities_of(admins@.take(i as int)).len(),
            forall|k: int| 0 <= k < r.len() ==> same_admin(#[trigger] r@[k], cities_of(admins@.take(i as int))[k]),
        decreases admins.len() - i,
    {
        proof {
            assert(admins@.take(i + 1) =~= admins@.take(i as int).push(admins@[i as int]));
            lemma_cities_of_push(admins@.take(i as int), admins@[i as int]);
        }
        if admins[i].is_city() {
            r.push(admins[i].copy());
        }
        i = i + 1;
    }
    assert(admins@.take(admins.len() as int) =~= admins@);
    r
}

/// The first region registered under a key.
fn find_admin<W>(entries: &Vec<(String, Admin<W>)>, key: &String) -> (r: Option<usize>)
    ensures
        match r {
            Some(i) => i < entries.len() && admin_lookup(entries@, key@) == Some(entries@[i as int].1),
            None => admin_lookup(entries@, key@) is None,
        },
{
    let mut i: usize = 0;
    assert(entries@.subrange(0, entries.len() as int) =~= entries@);
    while i < entries.len()
        invariant
            i <= entries.len(),
            admin_lookup(entries@.subrange(i as int, entries.len() as int), key@) == admin_lookup(entries@, key@),
        decreases entries.len() - i,
    {
        let ghost rest = entries@.subrange(i as int, entries.len() as int);
        assert(rest[0] == entries@[i as int]);
        if entries[i].0 == *key {
            return Some(i);
        }
        assert(rest.drop_first() =~= entries@.subrange(i + 1, entries.len() as int));
        i = i + 1;
    }
    None
}

/// The weight of the first region of level 8, if there is one.
fn find_level8_weight<W: Copy>(admins: &Vec<Admin<W>>) -> (r: Option<W>)
    ensures
        r == level8_weight(admins@),
{
    let mut i: usize = 0;
    assert(admins@.subrange(0, admins.len() as int) =~= admins@);
    while i < admins.len()
        invariant
            i <= admins.len(),
            level8_weight(admins@.subrange(i as int, admins.len() as int)) == level8_weight(admins@),
        decreases admins.len() - i,
    {
        let ghost rest = admins@.subrange(i as int, admins.len() as int);
        assert(rest[0] == admins@[i as int]);
        if admins[i].level == 8 {
            return Some(admins[i].weight);
        }
        assert(rest.drop_first() =~= admins@.subrange(i + 1, admins.len() as int));
        i = i + 1;
    }
    None
}

/// A city known only by its name.
fn named_city<W>(name: &String, zero: W) -> (c: Admin<W>)
    ensures
        c.name == *name,
        c.zone_type == Some(ZoneType::City),
{
    Admin {
        id: String::new(),
        level: 0,
        name: name.clone(),
        label: String::new(),
        zip_codes: Vec::new(),
        weight: zero,
        insee: String::new(),
        zone_type: Some(ZoneType::City),
        parent_id: None,
        codes: Vec::new(),
        country_codes: Vec::new(),
        names: I18nProperties(Vec::new()),
        labels: I18nProperties(Vec::new()),
    }
}

/// What the formatter writes as the short form of an address in a city.
pub open spec fn short_in_city(house_number: Seq<char>, street: Seq<char>, city: Seq<char>, code: Seq<char>) -> Seq<char> {
    match short_addr_text(Some(house_number), Some(street), None, Some(city), None, None, None, Some(code)) {
        Some(s) => s,
        None => seq![],
    }
}

impl Bano {
    /// The address of a BANO record, given the regions found at its position,
    /// the regions known by INSEE code, and its position written as text. The
    /// region known for its INSEE code replaces the regions of its level; the
    /// labels name the first city of the regions, else the city of the record,
    /// and are laid out as in France; the weight is that of the first region
    /// of level 8, else `zero`.
    pub fn into_addr<W: Copy>(
        self,
        admins_from_insee: &Vec<(String, Admin<W>)>,
        found: Vec<Admin<W>>,
        lon: &str,
        lat: &str,
        zero: W,
    ) -> (r: Result<Addr<W>, AddrError>)
        requires
            byte_boundary(self.id@, 10),
            utf8_width(self.id@) >= 10 ==> byte_boundary(self.id@, 5),
        ensures
            match r {
                Err(AddrError::InvalidFantoirId { id }) => utf8_width(self.id@) < 10 && id@ == self.id@,
                Err(_) => false,
                Ok(a) => utf8_width(self.id@) >= 10 && {
                    let admins = bano_admins(
                        found@,
                        admin_lookup(admins_from_insee@, trim_leading(take_bytes(self.id@, 5), '0')),
                    );
                    let city = bano_label_city(admins, self.city@);
                    &&& a.id@ == addr_id_text(lon@, lat@, self.house_number@)
                    &&& a.house_number@ == self.house_number@
                    &&& a.name@ == short_in_city(self.house_number@, self.street@, self.city@, "fr"@)
                    &&& a.label@ == a.name@ + " ("@ + city + ")"@
                    &&& a.weight == (match level8_weight(admins) {
                        Some(w) => w,
                        None => zero,
                    })
                    &&& strs(a.zip_codes@) == split_spec(self.zip@, ';')
                    &&& strs(a.country_codes@) == seq!["fr"@]
                    &&& a.street.id@ == "street:"@ + take_bytes(self.id@, 10)
                    &&& a.street.name@ == self.street@
                    &&& a.street.label@ == self.street@ + " ("@ + city + ")"@
                    &&& same_admins(a.street.administrative_regions@, admins)
                    &&& a.street.weight == a.weight
                    &&& a.street.zip_codes@ == a.zip_codes@
                    &&& a.street.country_codes@ == a.country_codes@
                },
            },
    {
        let fantoir = match self.fantoir() {
            Ok(f) => f,
            Err(e) => {
                return Err(e);
            },
        };
        let mut street_id = "street:".to_owned();
        push_all(&mut street_id, fantoir.as_str());
        let insee = match self.insee() {
            Ok(i) => i,
            Err(e) => {
                return Err(e);
            },
        };
        let ghost by_insee = admin_lookup(admins_from_insee@, insee@);
        let admins = match find_admin(admins_from_insee, &insee) {
            Some(k) => {
                let a = admins_from_insee[k].1.copy();
                let mut v = retain_other_levels(found, a.level);
                v.push(a);
                v
            },
            None => found,
        };
        let ghost spec_admins = bano_admins(found@, by_insee);
        assert(same_admins(admins@, spec_admins)) by {
            assert forall|k: int| 0 <= k < admins@.len() implies same_admin(#[trigger] admins@[k], spec_admins[k]) by {}
        }
        let country_codes = vec!["fr".to_owned()];
        let city = named_city(&self.city, zero);
        let mut zones = copy_cities(&admins);
        zones.push(city);
        proof {
            lemma_first_city_cities(admins@);
            lemma_first_city_cities(spec_admins);
            assert(first_city(admins@) == first_city(spec_admins)) by {
                lemma_first_city_same(admins@, spec_admins);
            }
            lemma_first_city_of_zones(admins@, zones@, zones@[zones.len() - 1]);
            assert forall|k: int| 0 <= k < zones.len() implies (#[trigger] zones@[k]).zone_type == Some(ZoneType::City) by {
                if k < zones.len() - 1 {
                    assert(same_admin(zones@[k], cities_of(admins@)[k]));
                }
            }
            lemma_components_of_cities(zones@);
        }
        let street_label = format_street_label(self.street.as_str(), &zones, &country_codes);
        let (addr_name, addr_label) = format_addr_name_and_label(
            self.house_number.as_str(),
            self.street.as_str(),
            &zones,
            &country_codes,
        );
        let weight = match find_level8_weight(&admins) {
            Some(w) => w,
            None => zero,
        };
        proof {
            lemma_level8_same(admins@, spec_admins);
        }
        let zip_codes = split_on(self.zip.as_str(), ';');
        let id = addr_id(lon, lat, self.house_number.as_str());
        let street = Street {
            id: street_id,
            name: self.street,
            label: street_label,
            administrative_regions: admins,
            weight,
            zip_codes: copy_strings(&zip_codes),
            country_codes: copy_strings(&country_codes),
        };
        Ok(
            Addr {
                id,
                name: addr_name,
                label: addr_label,
                house_number: self.house_number,
                street,
                weight,
                zip_codes,
                country_codes,
            },
        )
    }
}

proof fn lemma_first_city_same<W>(a: Seq<Admin<W>>, b: Seq<Admin<W>>)
    requires
        same_admins(a, b),
    ensures
        first_city(a) == first_city(b),
        first_city(a) matches Some(i) ==> a[i].name == b[i].name,
    decreases a.len(),
{
    if a.len() > 0 {
        assert(same_admin(a[0], b[0]));
        assert(same_admins(a.drop_first(), b.drop_first())) by {
            assert forall|k: int| 0 <= k < a.drop_first().len() implies same_admin(#[trigger] a.drop_first()[k], b.drop_first()[k]) by {
                assert(same_admin(a[k + 1], b[k + 1]));
            }
        }
        lemma_first_city_same(a.drop_first(), b.drop_first());
        if a[0].zone_type != Some(ZoneType::City) {
            lemma_first_city_cities(a.drop_first());
            if first_city(a.drop_first()) is Some {
                let i = first_city(a.drop_first())->0;
                assert(a[i + 1] == a.drop_first()[i]);
                assert(b[i + 1] == b.drop_first()[i]);
            }
        }
    }
}

proof fn lemma_level8_same<W>(a: Seq<Admin<W>>, b: Seq<Admin<W>>)
    requires
        same_admins(a, b),
    ensures
        level8_weight(a) == level8_weight(b),
    decreases a.len(),
{
    if a.len() > 0 {
        assert(same_admin(a[0], b[0]));
        assert(same_admins(a.drop_first(), b.drop_first())) by {
            assert forall|k: int| 0 <= k < a.drop_first().len() implies same_admin(#[trigger] a.drop_first()[k], b.drop_first()[k]) by {
                assert(same_admin(a[k + 1], b[k + 1]));
            }
        }
        lemma_level8_same(a.drop_first(), b.drop_first());
    }
}

/// A record of an OpenAddresses file, without its position.
#[derive(Debug, Clone)]
pub struct OpenAddress {
    pub id: String,
    pub street: String,
    pub postcode: String,
    pub district: String,
    pub region: String,
    pub city: String,
    pub number: String,
    pub unit: String,
}

impl OpenAddress {
    /// The address of an OpenAddresses record, given the regions found at its
    /// position and its position written as text: its labels name the first
    /// city of the regions, its name is laid out for the first country code
    /// of the regions, its weight is that of the first city, else `zero`.
    pub fn into_addr<W: Copy>(self, admins: Vec<Admin<W>>, lon: &str, lat: &str, zero: W) -> (r: Result<Addr<W>, AddrError>)
        ensures
            match r {
                Err(_) => false,
                Ok(a) => {
                    &&& a.id@ == addr_id_text(lon@, lat@, self.number@)
                    &&& a.house_number@ == self.number@
                    &&& a.name@ == short_label(Some(self.number@), self.street@, admins@, a.country_codes@)
                    &&& a.label@ == label_text(a.name@, admins@)
                    &&& a.weight == (match city_weight(admins@) {
                        Some(w) => w,
                        None => zero,
                    })
                    &&& strs(a.zip_codes@) == split_spec(self.postcode@, ';')
                    &&& strs(a.country_codes@) == admins_country_codes(admins@)
                    &&& a.street.id@ == "street:"@ + self.id@
                    &&& a.street.name@ == self.street@
                    &&& a.street.label@ == label_text(self.street@, admins@)
                    &&& a.street.administrative_regions@ == admins@
                    &&& a.street.weight == a.weight
                    &&& a.street.zip_codes@ == a.zip_codes@
                    &&& a.street.country_codes@ == a.country_codes@
                },
            },
    {
        let mut street_id = "street:".to_owned();
        push_all(&mut street_id, self.id.as_str());
        let country_codes = find_country_codes(&admins);
        let weight = match find_city(&admins) {
            Some(i) => admins[i].weight,
            None => zero,
        };
        let street_label = format_street_label(self.street.as_str(), &admins, &country_codes);
        let (addr_name, addr_label) = format_addr_name_and_label(
            self.number.as_str(),
            self.street.as_str(),
            &admins,
            &country_codes,
        );
        let zip_codes = split_on(self.postcode.as_str(), ';');
        let id = addr_id(lon, lat, self.number.as_str());
        let street = Street {
            id: street_id,
            name: self.street,
            label: street_label,
            administrative_regions: admins,
            weight,
            zip_codes: copy_strings(&zip_codes),
            country_codes: copy_strings(&country_codes),
        };
        Ok(
            Addr {
                id,
                name: addr_name,
                label: addr_label,
                house_number: self.number,
                street,
                weight,
                zip_codes,
                country_codes,
            },
        )
    }
}

/// A file of addresses is read when its name ends with `.csv` or `.csv.gz`.
pub open spec fn is_csv_name(name: Seq<char>) -> bool {
    has_suffix(name, ".csv"@) || has_suffix(name, ".csv.gz"@)
}

/// Whether a file of a directory of addresses is read (see `is_csv_name`).
pub fn is_csv_file_name(name: &str) -> (r: bool)
    ensures
        r == is_csv_name(name@),
{
    proof {
        reveal_strlit(".csv");
        reveal_strlit(".csv.gz");
    }
    ends_with(name, ".csv") || ends_with(name, ".csv.gz")
}

/// The settings given on the command line that configure the index of
/// addresses: those that begin with `elasticsearch.addr`, in order.
pub open spec fn addr_index_settings_spec(settings: Seq<Seq<char>>) -> Seq<Seq<char>> {
    settings.filter(|s: Seq<char>| has_prefix(s, "elasticsearch.addr"@))
}

/// The settings that configure the index of addresses (see
/// `addr_index_settings_spec`).
pub fn addr_index_settings(settings: &Vec<String>) -> (r: Vec<String>)
    ensures
        strs(r@) == addr_index_settings_spec(strs(settings@)),
{
    settings_with_prefix(settings, "elasticsearch.addr")
}

/// The addresses that are imported from what reading a file gave, in
/// order: those that could be made and have a street name.
pub open spec fn kept_addrs<W>(rs: Seq<Result<Addr<W>, AddrError>>) -> Seq<Addr<W>>
    decreases rs.len(),
{
    if rs.len() == 0 {
        Seq::empty()
    } else {
        let before = kept_addrs(rs.drop_last());
        match rs.last() {
            Ok(a) => if a.street.name@.len() > 0 {
                before.push(a)
            } else {
                before
            },
            Err(_) => before,
        }
    }
}

/// Keeps the addresses that are imported (see `kept_addrs`): records that
/// gave an error, and addresses without a street name, are left out.
pub fn keep_addresses<W>(results: Vec<Result<Addr<W>, AddrError>>) -> (r: Vec<Addr<W>>)
    ensures
        r@ == kept_addrs(results@),
{
    let ghost orig = results@;
    let n = results.len();
    let mut rest = results;
    let mut r: Vec<Addr<W>> = Vec::new();
    let mut j: usize = 0;
    while j < n
        invariant
            n == orig.len(),
            j <= n,
            rest@ == orig.skip(j as int),
            r@ == kept_addrs(orig.take(j as int)),
        decreases n - j,
    {
        let x = rest.remove(0);
        assert(x == orig[j as int]);
        assert(orig.take(j + 1).drop_last() =~= orig.take(j as int));
        assert(orig.take(j + 1).last() == orig[j as int]);
        match x {
            Ok(a) => {
                if !a.street.name.as_str().is_empty() {
                    r.push(a);
                }
            },
            Err(_) => {},
        }
        assert(rest@ =~= orig.skip(j + 1));
        j = j + 1;
    }
    assert(orig.take(n as int) =~= orig);
    r
}

} // verus!
