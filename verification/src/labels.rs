//! Labels of places: `{nice name} ({city})`, where the nice name of an
//! address is its house number and street laid out as the country does.
use vstd::prelude::*;
use crate::places::{Admin, ZoneType};
use crate::text::{opt_str, push_all, strs};

verus! {

/// The first region of the list that is a city.
pub open spec fn first_city<W>(admins: Seq<Admin<W>>) -> Option<int>
    decreases admins.len(),
{
    if admins.len() == 0 {
        None
    } else if admins[0].zone_type == Some(ZoneType::City) {
        Some(0)
    } else {
        match first_city(admins.drop_first()) {
            Some(i) => Some(i + 1),
            None => None,
        }
    }
}

/// A label: the name, followed by the name of the first city among the
/// regions, in brackets, when there is one.
pub open spec fn label_text<W>(name: Seq<char>, admins: Seq<Admin<W>>) -> Seq<char> {
    match first_city(admins) {
        Some(i) => name + " ("@ + admins[i].name@ + ")"@,
        None => name,
    }
}

proof fn lemma_first_city_found<W>(admins: Seq<Admin<W>>, k: int)
    requires
        0 <= k < admins.len(),
        admins[k].zone_type == Some(ZoneType::City),
        forall|j: int| 0 <= j < k ==> admins[j].zone_type != Some(ZoneType::City),
    ensures
        first_city(admins) == Some(k),
    decreases admins.len(),
{
    if k > 0 {
        lemma_first_city_found(admins.drop_first(), k - 1);
    }
}

proof fn lemma_first_city_none<W>(admins: Seq<Admin<W>>)
    requires
        forall|j: int| 0 <= j < admins.len() ==> admins[j].zone_type != Some(ZoneType::City),
    ensures
        first_city(admins) is None,
    decreases admins.len(),
{
    if admins.len() > 0 {
        lemma_first_city_none(admins.drop_first());
    }
}

/// The position of the first city among the regions.
pub fn find_city<W>(admins: &Vec<Admin<W>>) -> (r: Option<usize>)
    ensures
        match r {
            Some(i) => first_city(admins@) == Some(i as int) && i < admins.len(),
            None => first_city(admins@) is None,
        },
{
    let mut i: usize = 0;
    while i < admins.len()
        invariant
            i <= admins.len(),
            forall|j: int| 0 <= j < i ==> admins@[j].zone_type != Some(ZoneType::City),
        decreases admins.len() - i,
    {
        if admins[i].is_city() {
            proof {
                lemma_first_city_found(admins@, i as int);
            }
            return Some(i);
        }
        i = i + 1;
    }
    proof {
        lemma_first_city_none(admins@);
    }
    None
}

/// Formats a label (see `label_text`).
pub fn format_label<W>(nice_name: String, admins: &Vec<Admin<W>>) -> (r: String)
    ensures
        r@ == label_text(nice_name@, admins@),
{
    match find_city(admins) {
        Some(i) => {
            let mut r = nice_name;
            push_all(&mut r, " (");
            push_all(&mut r, admins[i].name.as_str());
            push_all(&mut r, ")");
            r
        },
        None => nice_name,
    }
}

/// The label of a street. The country codes do not change it.
pub fn format_street_label<W>(name: &str, admins: &Vec<Admin<W>>, country_codes: &Vec<String>) -> (r: String)
    ensures
        r@ == label_text(name@, admins@),
{
    format_label(name.to_owned(), admins)
}

/// The label of a point of interest. The country codes do not change it.
pub fn format_poi_label<W>(name: &str, admins: &Vec<Admin<W>>, country_codes: &Vec<String>) -> (r: String)
    ensures
        r@ == label_text(name@, admins@),
{
    format_label(name.to_owned(), admins)
}

/// The parts of a postal address that regions fill.
#[derive(Debug, Clone, Copy, PartialEq, Eq, Structural)]
pub enum AddrComponent {
    Suburb,
    City,
    County,
    State,
    Country,
}

/// The part of a postal address that a region of a zone type fills.
pub open spec fn addr_component(z: Option<ZoneType>) -> Option<AddrComponent> {
    match z {
        Some(ZoneType::City) => Some(AddrComponent::City),
        Some(ZoneType::Country) => Some(AddrComponent::Country),
        Some(ZoneType::State) => Some(AddrComponent::State),
        Some(ZoneType::Suburb) => Some(AddrComponent::Suburb),
        Some(ZoneType::StateDistrict) => Some(AddrComponent::County),
        _ => None,
    }
}

/// The part of a postal address that a region of a zone type fills.
pub fn cosmo_to_addr_formatter_type(z: &Option<ZoneType>) -> (r: Option<AddrComponent>)
    ensures
        r == addr_component(*z),
{
    match z {
        Some(ZoneType::City) => Some(AddrComponent::City),
        Some(ZoneType::Country) => Some(AddrComponent::Country),
        Some(ZoneType::State) => Some(AddrComponent::State),
        Some(ZoneType::Suburb) => Some(AddrComponent::Suburb),
        Some(ZoneType::StateDistrict) => Some(AddrComponent::County),
        _ => None,
    }
}

/// A postal address, as far as labels fill it.
#[derive(Debug, Clone)]
pub struct AddrPlace {
    pub house_number: Option<String>,
    pub road: Option<String>,
    pub suburb: Option<String>,
    pub city: Option<String>,
    pub county: Option<String>,
    pub state: Option<String>,
    pub country: Option<String>,
}

/// The name of the last region that fills the component `c`.
pub open spec fn component_name<W>(admins: Seq<Admin<W>>, c: AddrComponent) -> Option<Seq<char>>
    decreases admins.len(),
{
    if admins.len() == 0 {
        None
    } else if addr_component(admins.last().zone_type) == Some(c) {
        Some(admins.last().name@)
    } else {
        component_name(admins.drop_last(), c)
    }
}

/// A house number and a street, to be laid out as an address.
#[derive(Debug, Clone)]
pub struct FormatPlaceHolder {
    pub street: String,
    pub house_number: Option<String>,
}

impl FormatPlaceHolder {
    pub fn from_addr(house_number: String, street: String) -> (r: Self)
        ensures
            r.street == street,
            r.house_number == Some(house_number),
    {
        FormatPlaceHolder { street, house_number: Some(house_number) }
    }

    /// The address: the house number and the road, and for each part that a
    /// region fills, the name of the last region that fills it.
    pub fn into_place<W>(self, admins: &Vec<Admin<W>>) -> (p: AddrPlace)
        ensures
            opt_str(p.house_number) == opt_str(self.house_number),
            opt_str(p.road) == Some(self.street@),
            opt_str(p.suburb) == component_name(admins@, AddrComponent::Suburb),
            opt_str(p.city) == component_name(admins@, AddrComponent::City),
            opt_str(p.county) == component_name(admins@, AddrComponent::County),
            opt_str(p.state) == component_name(admins@, AddrComponent::State),
            opt_str(p.country) == component_name(admins@, AddrComponent::Country),
    {
        let mut p = AddrPlace {
            house_number: self.house_number,
            road: Some(self.street),
            suburb: None,
            city: None,
            county: None,
            state: None,
            country: None,
        };
        let mut i: usize = 0;
        while i < admins.len()
            invariant
                i <= admins.len(),
                opt_str(p.house_number) == opt_str(self.house_number),
                opt_str(p.road) == Some(self.street@),
                opt_str(p.suburb) == component_name(admins@.take(i as int), AddrComponent::Suburb),
                opt_str(p.city) == component_name(admins@.take(i as int), AddrComponent::City),
                opt_str(p.county) == component_name(admins@.take(i as int), AddrComponent::County),
                opt_str(p.state) == component_name(admins@.take(i as int), AddrComponent::State),
                opt_str(p.country) == component_name(admins@.take(i as int), AddrComponent::Country),
            decreases admins.len() - i,
        {
            assert(admins@.take(i + 1).drop_last() =~= admins@.take(i as int));
            assert(admins@.take(i + 1).last() == admins@[i as int]);
            match cosmo_to_addr_formatter_type(&admins[i].zone_type) {
                Some(AddrComponent::Suburb) => p.suburb = Some(admins[i].name.clone()),
                Some(AddrComponent::City) => p.city = Some(admins[i].name.clone()),
                Some(AddrComponent::County) => p.county = Some(admins[i].name.clone()),
                Some(AddrComponent::State) => p.state = Some(admins[i].name.clone()),
                Some(AddrComponent::Country) => p.country = Some(admins[i].name.clone()),
                None => {},
            }
            i = i + 1;
        }
        assert(admins@.take(admins.len() as int) =~= admins@);
        p
    }
}

/// What the address formatter writes as the one-line short form of an
/// address (house number and road laid out as the country does), from the
/// parts of the address and the country code it is told to use; `None`
/// when it fails.
pub uninterp spec fn short_addr_text(
    house_number: Option<Seq<char>>,
    road: Option<Seq<char>>,
    suburb: Option<Seq<char>>,
    city: Option<Seq<char>>,
    county: Option<Seq<char>>,
    state: Option<Seq<char>>,
    country: Option<Seq<char>>,
    country_code: Option<Seq<char>>,
) -> Option<Seq<char>>;

/// Calls `address_formatter::FORMATTER.short_addr_format_with_config` on
/// the place, with the country code given in the configuration; an error
/// of the formatter gives `None`. The formatter reads only its arguments and
/// templates compiled into it, so its result is named by `short_addr_text`.
#[verifier::external_body]
fn format_short_addr(place: &AddrPlace, country_code: Option<String>) -> (r: Option<String>)
    ensures
        opt_str(r) == short_addr_text(
            opt_str(place.house_number),
            opt_str(place.road),
            opt_str(place.suburb),
            opt_str(place.city),
            opt_str(place.county),
            opt_str(place.state),
            opt_str(place.country),
            opt_str(country_code),
        ),
{
    let mut p = address_formatter::Place::default();
    p[address_formatter::Component::HouseNumber] = place.house_number.clone();
    p[address_formatter::Component::Road] = place.road.clone();
    p[address_formatter::Component::Suburb] = place.suburb.clone();
    p[address_formatter::Component::City] = place.city.clone();
    p[address_formatter::Component::County] = place.county.clone();
    p[address_formatter::Component::State] = place.state.clone();
    p[address_formatter::Component::Country] = place.country.clone();
    let conf = address_formatter::Configuration { country_code, ..Default::default() };
    address_formatter::FORMATTER.short_addr_format_with_config(p, conf).ok()
}

/// The first country code, which is the one labels use.
pub open spec fn first_code(codes: Seq<String>) -> Option<Seq<char>> {
    if codes.len() > 0 {
        Some(codes[0]@)
    } else {
        None
    }
}

fn first_country_code(codes: &Vec<String>) -> (r: Option<String>)
    ensures
        opt_str(r) == first_code(codes@),
{
    if codes.len() > 0 {
        Some(codes[0].clone())
    } else {
        None
    }
}

/// The short form of the address with the given house number and road among
/// the given regions, in the country of the first country code: what the
/// formatter writes, or nothing when it fails.
pub open spec fn short_label<W>(
    house_number: Option<Seq<char>>,
    road: Seq<char>,
    admins: Seq<Admin<W>>,
    codes: Seq<String>,
) -> Seq<char> {
    match short_addr_text(
        house_number,
        Some(road),
        component_name(admins, AddrComponent::Suburb),
        component_name(admins, AddrComponent::City),
        component_name(admins, AddrComponent::County),
        component_name(admins, AddrComponent::State),
        component_name(admins, AddrComponent::Country),
        first_code(codes),
    ) {
        Some(s) => s,
        None => seq![],
    }
}

/// The short form of an address of the given place, in the country of the
/// first country code.
pub fn get_short_addr_label<W>(place: FormatPlaceHolder, admins: &Vec<Admin<W>>, country_codes: &Vec<String>) -> (r: String)
    ensures
        r@ == short_label(opt_str(place.house_number), place.street@, admins@, country_codes@),
{
    let p = place.into_place(admins);
    let formatted = format_short_addr(&p, first_country_code(country_codes));
    match formatted {
        Some(s) => s,
        None => String::new(),
    }
}

/// The name and the label of an address, from the short form that the
/// formatter gave (nothing when it failed): the name is that short form,
/// the label is made from the name (see `label_text`).
pub fn addr_name_and_label<W>(short: Option<String>, admins: &Vec<Admin<W>>) -> (r: (String, String))
    ensures
        r.0@ == (match opt_str(short) {
            Some(s) => s,
            None => seq![],
        }),
        r.1@ == label_text(r.0@, admins@),
{
    let name = match short {
        Some(s) => s,
        None => String::new(),
    };
    let label = format_label(name.clone(), admins);
    (name, label)
}

/// The name and the label of an address with the given house number and
/// street, among the given regions.
pub fn format_addr_name_and_label<W>(
    house_number: &str,
    street_name: &str,
    admins: &Vec<Admin<W>>,
    country_codes: &Vec<String>,
) -> (r: (String, String))
    ensures
        r.0@ == short_label(Some(house_number@), street_name@, admins@, country_codes@),
        r.1@ == label_text(r.0@, admins@),
{
    let place = FormatPlaceHolder::from_addr(house_number.to_owned(), street_name.to_owned());
    let p = place.into_place(admins);
    let formatted = format_short_addr(&p, first_country_code(country_codes));
    addr_name_and_label(formatted, admins)
}

} // verus!
