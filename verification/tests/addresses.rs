use mimirsbrunn::addresses::{addr_id, addr_index_settings, is_csv_file_name, keep_addresses, AddrError, Bano, OpenAddress};
use mimirsbrunn::places::{Admin, I18nProperties, ZoneType};

fn admin(id: &str, name: &str, level: u32, zt: Option<ZoneType>, weight: f64) -> Admin<f64> {
    Admin {
        id: id.to_string(),
        level,
        name: name.to_string(),
        label: String::new(),
        zip_codes: vec![],
        weight,
        insee: String::new(),
        zone_type: zt,
        parent_id: None,
        codes: vec![("ISO3166-1:alpha2".to_string(), "FR".to_string())],
        country_codes: vec![],
        names: I18nProperties(vec![]),
        labels: I18nProperties(vec![]),
    }
}

fn bano(id: &str) -> Bano {
    Bano {
        id: id.to_string(),
        house_number: "1 bis".to_string(),
        street: "Cours Napoléon".to_string(),
        zip: "20000;20090".to_string(),
        city: "Ajaccio".to_string(),
        src: "OSM".to_string(),
    }
}

#[test]
fn bano_codes() {
    let b = bano("02004220015");
    assert_eq!(b.insee().unwrap(), "2004");
    assert_eq!(b.fantoir().unwrap(), "0200422001");
    match bano("2A00").insee() {
        Err(AddrError::InvalidInseeId { id }) => assert_eq!(id, "2A00"),
        other => panic!("unexpected {:?}", other),
    }
    match bano("2A0042").fantoir() {
        Err(AddrError::InvalidFantoirId { id }) => assert_eq!(id, "2A0042"),
        other => panic!("unexpected {:?}", other),
    }
}

#[test]
fn address_ids() {
    assert_eq!(addr_id("8.7", "41.9", "1 bis/2;3"), "addr:8.7;41.9:1bis-2-3");
    assert_eq!(addr_id("0", "0", " \t"), "addr:0;0:");
}

#[test]
fn bano_address() {
    let found = vec![
        admin("admin:geo_city", "Geo", 8, Some(ZoneType::City), 0.1),
        admin("admin:country", "France", 2, Some(ZoneType::Country), 0.9),
    ];
    let by_insee = vec![("2A004".to_string(), admin("admin:ajaccio", "Ajaccio", 8, Some(ZoneType::City), 0.7))];
    let a = bano("2A0042200150").into_addr(&by_insee, found, "8.7", "41.9", 0.).unwrap();
    assert_eq!(a.id, "addr:8.7;41.9:1bis");
    assert_eq!(a.street.id, "street:2A00422001");
    let ids: Vec<&str> = a.street.administrative_regions.iter().map(|r| r.id.as_str()).collect();
    assert_eq!(ids, vec!["admin:country", "admin:ajaccio"]);
    assert_eq!(a.weight, 0.7);
    assert_eq!(a.street.label, "Cours Napoléon (Ajaccio)");
    assert_eq!(a.name, "1 bis Cours Napoléon");
    assert_eq!(a.label, "1 bis Cours Napoléon (Ajaccio)");
    assert_eq!(a.zip_codes, vec!["20000", "20090"]);
    assert_eq!(a.country_codes, vec!["fr"]);
    match bano("123").into_addr::<f64>(&vec![], vec![], "0", "0", 0.) {
        Err(AddrError::InvalidFantoirId { id }) => assert_eq!(id, "123"),
        other => panic!("unexpected {:?}", other),
    }
}

#[test]
fn bano_address_uses_the_record_city_without_regions() {
    let a = bano("2A0042200150").into_addr::<f64>(&vec![], vec![], "8.7", "41.9", 0.).unwrap();
    assert_eq!(a.street.label, "Cours Napoléon (Ajaccio)");
    assert_eq!(a.weight, 0.);
}

#[test]
fn openaddresses_address() {
    let oa = OpenAddress {
        id: "oa1".to_string(),
        street: "Otto-Braun-Straße".to_string(),
        postcode: "10178".to_string(),
        district: String::new(),
        region: String::new(),
        city: "Berlin".to_string(),
        number: "72".to_string(),
        unit: String::new(),
    };
    let mut berlin = admin("admin:berlin", "Berlin", 8, Some(ZoneType::City), 0.3);
    berlin.codes = vec![("ISO3166-1:alpha2".to_string(), "DE".to_string())];
    let a = oa.into_addr(vec![berlin], "13.41931", "52.52354", 0.).unwrap();
    assert_eq!(a.id, "addr:13.41931;52.52354:72");
    assert_eq!(a.name, "Otto-Braun-Straße 72");
    assert_eq!(a.label, "Otto-Braun-Straße 72 (Berlin)");
    assert_eq!(a.street.id, "street:oa1");
    assert_eq!(a.weight, 0.3);
    assert_eq!(a.country_codes, vec!["DE"]);
}

#[test]
fn codes_count_bytes() {
    // "é" takes two bytes: the first five bytes are "é123", the first ten "é1234567x".
    let b = bano("é1234567x9");
    assert_eq!(b.insee().unwrap(), "é123");
    assert_eq!(b.fantoir().unwrap(), "é1234567x");
    match bano("éé").insee() {
        Err(AddrError::InvalidInseeId { id }) => assert_eq!(id, "éé"),
        _ => panic!("an identifier of four bytes holds no INSEE code"),
    }
}

#[test]
fn address_files_and_index_settings() {
    assert!(is_csv_file_name("fr.csv"));
    assert!(is_csv_file_name("fr.csv.gz"));
    assert!(!is_csv_file_name("fr.gz"));
    assert!(!is_csv_file_name("README"));
    let settings = vec![
        "elasticsearch.addr.settings.number_of_shards=2".to_string(),
        "elasticsearch.url=http://localhost:9200".to_string(),
        "elasticsearch.addr.mappings=x".to_string(),
    ];
    assert_eq!(
        addr_index_settings(&settings),
        vec!["elasticsearch.addr.settings.number_of_shards=2".to_string(), "elasticsearch.addr.mappings=x".to_string()]
    );
}

#[test]
fn keep_only_addresses_with_a_street_name() {
    let ok = |number: &str, street: &str| {
        OpenAddress {
            id: format!("oa{}", number),
            street: street.to_string(),
            postcode: String::new(),
            district: String::new(),
            region: String::new(),
            city: String::new(),
            number: number.to_string(),
            unit: String::new(),
        }
        .into_addr::<f64>(vec![], "1", "2", 0.)
    };
    let results = vec![
        ok("1", "rue A"),
        Err(AddrError::InvalidFantoirId { id: "x".to_string() }),
        ok("2", ""),
        ok("3", "rue B"),
    ];
    let kept = keep_addresses(results);
    let numbers: Vec<&str> = kept.iter().map(|a| a.house_number.as_str()).collect();
    assert_eq!(numbers, vec!["1", "3"]);
}
