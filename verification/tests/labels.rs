use mimirsbrunn::labels::{format_addr_name_and_label, format_label, format_poi_label, format_street_label};
use mimirsbrunn::places::{Admin, I18nProperties, ZoneType};

fn admin(id: &str, level: u32, name: &str, label: &str, zt: Option<ZoneType>) -> Admin<f64> {
    Admin {
        id: id.to_string(),
        level,
        name: name.to_string(),
        label: label.to_string(),
        zip_codes: vec![],
        weight: 0.,
        insee: String::new(),
        zone_type: zt,
        parent_id: None,
        codes: vec![],
        country_codes: vec![],
        names: I18nProperties(vec![]),
        labels: I18nProperties(vec![]),
    }
}

fn get_nl_admins() -> Vec<Admin<f64>> {
    vec![
        admin("admin:amsterdam", 10, "Amsterdam", "Amsterdam, Noord-Hollad, Nederland", Some(ZoneType::City)),
        admin("admin:noord-holland", 4, "Noordh-Holland", "Noord-Hollad, Nederland", Some(ZoneType::State)),
        admin("admin:Nederland", 2, "Nederland", "Nederland", Some(ZoneType::Country)),
    ]
}

fn get_fr_admins() -> Vec<Admin<f64>> {
    vec![
        admin("admin:paris", 8, "Paris", "Paris (75000-75116), Île-de-France, France", Some(ZoneType::City)),
        admin("admin:idf", 4, "Île-de-France", "Île-de-France, France", Some(ZoneType::State)),
        admin("admin:france", 2, "France", "France", Some(ZoneType::Country)),
    ]
}

#[test]
fn nl_addr() {
    let (name, label) =
        format_addr_name_and_label("573", "Herengracht", &get_nl_admins(), &vec!["nl".to_owned()]);
    assert_eq!(name, "Herengracht 573");
    assert_eq!(label, "Herengracht 573 (Amsterdam)");
}

#[test]
fn nl_street() {
    let label = format_street_label("Herengracht", &get_nl_admins(), &vec!["nl".to_owned()]);
    assert_eq!(label, "Herengracht (Amsterdam)");
}

#[test]
fn nl_poi() {
    let label = format_poi_label("Delirium Cafe", &get_nl_admins(), &vec!["nl".to_owned()]);
    assert_eq!(label, "Delirium Cafe (Amsterdam)");
}

#[test]
fn fr_addr() {
    let (name, label) =
        format_addr_name_and_label("20", "rue hector malot", &get_fr_admins(), &vec!["fr".to_owned()]);
    assert_eq!(name, "20 rue hector malot");
    assert_eq!(label, "20 rue hector malot (Paris)");
}

#[test]
fn fr_street() {
    let label = format_street_label("rue hector malot", &get_fr_admins(), &vec!["fr".to_owned()]);
    assert_eq!(label, "rue hector malot (Paris)");
}

#[test]
fn fr_poi() {
    let label = format_poi_label("Le Rossli", &get_fr_admins(), &vec!["fr".to_owned()]);
    assert_eq!(label, "Le Rossli (Paris)");
}

#[test]
fn label_without_city_is_the_name() {
    let admins = vec![admin("admin:france", 2, "France", "France", Some(ZoneType::Country))];
    assert_eq!(format_label("Somewhere".to_string(), &admins), "Somewhere");
    assert_eq!(format_label::<f64>("Somewhere".to_string(), &vec![]), "Somewhere");
}

#[test]
fn label_uses_the_first_city() {
    let admins = vec![
        admin("a", 8, "First", "", Some(ZoneType::City)),
        admin("b", 8, "Second", "", Some(ZoneType::City)),
    ];
    assert_eq!(format_label("x".to_string(), &admins), "x (First)");
}
