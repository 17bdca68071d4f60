use mimirsbrunn::places::{
    default_true, find_country_codes, get_country_code, get_zip_codes_from_admins, normalize_id, Admin,
    I18nProperties, PlaceDocType, Property, ZoneType,
};
use mimirsbrunn::text::{parse_u32, split_on};
use mimirsbrunn::order::sort_strings;

fn admin(level: u32, zips: &[&str], codes: &[(&str, &str)]) -> Admin<f64> {
    Admin {
        id: format!("admin:{}", level),
        level,
        name: String::new(),
        label: String::new(),
        zip_codes: zips.iter().map(|s| s.to_string()).collect(),
        weight: 0.,
        insee: String::new(),
        zone_type: Some(ZoneType::City),
        parent_id: None,
        codes: codes.iter().map(|&(k, v)| (k.to_string(), v.to_string())).collect(),
        country_codes: vec![],
        names: I18nProperties(vec![]),
        labels: I18nProperties(vec![]),
    }
}

#[test]
fn doc_type_names() {
    assert_eq!(PlaceDocType::Admin.as_str(), "admin");
    assert_eq!(PlaceDocType::Street.as_str(), "street");
    assert_eq!(PlaceDocType::Addr.as_str(), "addr");
    assert_eq!(PlaceDocType::Poi.as_str(), "poi");
    assert_eq!(PlaceDocType::Stop.as_str(), "stop");
}

#[test]
fn i18n_get_first_match() {
    let p = I18nProperties(vec![
        Property { key: "fr".to_string(), value: "Bretagne".to_string() },
        Property { key: "en".to_string(), value: "Brittany".to_string() },
        Property { key: "fr".to_string(), value: "Breizh".to_string() },
    ]);
    assert_eq!(p.get("fr"), Some("Bretagne"));
    assert_eq!(p.get("en"), Some("Brittany"));
    assert_eq!(p.get("de"), None);
    let q = I18nProperties::from_pairs(vec![("it".to_string(), "Bretagna".to_string())]);
    assert_eq!(q.get("it"), Some("Bretagna"));
}

#[test]
fn ids_are_normalized() {
    assert_eq!(normalize_id("stop_area", "StopArea:SA 1"), "stop_area:SA1");
    assert_eq!(normalize_id("stop_area", "foo StopArea:bar StopArea:baz"), "stop_area:foobarStopArea:baz");
    assert_eq!(normalize_id("line", "StopArea:L 1"), "line:StopArea:L1");
    assert_eq!(normalize_id("poi", ""), "poi:");
    assert!(default_true());
}

#[test]
fn country_code_of_codes() {
    let codes = vec![
        ("ISO3166-1:alpha2".to_string(), "FR".to_string()),
        ("wikidata".to_string(), "Q142".to_string()),
    ];
    assert_eq!(get_country_code(&codes), Some("FR".to_string()));
    assert_eq!(get_country_code(&vec![]), None);
    let admins = vec![admin(2, &[], &[("ISO3166-1:alpha2", "FR")]), admin(8, &[], &[])];
    assert_eq!(find_country_codes(&admins), vec!["FR".to_string()]);
}

#[test]
fn zip_codes_of_the_highest_level() {
    let admins = vec![admin(8, &["75001", "75002"], &[]), admin(9, &[], &[]), admin(4, &["75"], &[]), admin(8, &["75003"], &[])];
    assert_eq!(get_zip_codes_from_admins(&admins), vec!["75001", "75002", "75003"]);
    let none = vec![admin(8, &[], &[])];
    assert!(get_zip_codes_from_admins(&none).is_empty());
}

#[test]
fn text_helpers() {
    assert_eq!(parse_u32("8"), Some(8));
    assert_eq!(parse_u32("+10"), Some(10));
    assert_eq!(parse_u32("4294967295"), Some(4294967295));
    assert_eq!(parse_u32("4294967296"), None);
    assert_eq!(parse_u32(""), None);
    assert_eq!(parse_u32("+"), None);
    assert_eq!(parse_u32("-1"), None);
    assert_eq!(parse_u32("1a"), None);
    assert_eq!(split_on("a;;b", ';'), vec!["a", "", "b"]);
    assert_eq!(split_on("", ';'), vec![""]);
    let sorted = sort_strings(vec!["b".to_string(), "ab".to_string(), "a".to_string(), "é".to_string(), "z".to_string()]);
    assert_eq!(sorted, vec!["a", "ab", "b", "z", "é"]);
}
