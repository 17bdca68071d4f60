use mimirsbrunn::admin_geofinder::{admins_for_point, AdminRegistry};
use mimirsbrunn::places::Place;
use mimirsbrunn::stops::new_stop;
use mimirsbrunn::labels::{get_short_addr_label, FormatPlaceHolder};
use std::collections::BTreeMap;
use mimirsbrunn::admin_geofinder::{admins_if_for_point, rank_order, AdminHierarchy, AdminLink, Candidate};
use mimirsbrunn::osm::Tags;
use mimirsbrunn::places::{Admin, I18nProperties, ZoneType};
use mimirsbrunn::rubber::{upsert, AdminEntry};
use mimirsbrunn::settings::osm2mimir::{validate, Error, Poi, Settings, Street};
use mimirsbrunn::settings::{settings_with_prefix, ConfigSource, SettingsError};
use mimirsbrunn::settings::b2::{elasticsearch_url_key, run_mode, service_port, B2SettingsError};
use mimirsbrunn::settings::osm2mimir::{poi_index_settings, street_index_settings};
use mimirsbrunn::settings::{Settings as ImportSettings, Street as StreetSettings, StreetExclusion};
use mimirsbrunn::stops::{GtfsStop, StopConversionErr, StopPointCount};
use mimirsbrunn::zones::{parent_regions, Zone};

fn tags(v: &[(&str, &str)]) -> Tags {
    Tags { entries: v.iter().map(|&(k, v)| (k.to_string(), v.to_string())).collect() }
}

fn zone(id: usize, parent: Option<usize>) -> Zone {
    Zone {
        id,
        osm_id: format!("relation:{}", id),
        admin_level: Some(4),
        zone_type: Some(ZoneType::State),
        name: "Bretagne".to_string(),
        label: "Bretagne, France".to_string(),
        international_labels: vec![
            ("br".to_string(), "Breizh".to_string()),
            ("en".to_string(), "Brittany".to_string()),
        ],
        tags: tags(&[
            ("ISO3166-1:alpha2", "FR"),
            ("name:en", "Brittany"),
            ("postal_code", "35000;29000"),
            ("ref:INSEE", "53"),
            ("wikidata", "Q12130"),
        ]),
        parent,
    }
}

#[test]
fn zone_into_admin() {
    let mut ids = BTreeMap::new();
    ids.insert(1usize, ("relation:102740".to_string(), None));
    ids.insert(2usize, ("relation:2202162".to_string(), None));
    let a = zone(1, Some(2)).into_admin(&ids, &vec!["en".to_string()], 0.5f64);
    assert_eq!(a.id, "admin:osm:relation:102740");
    assert_eq!(a.parent_id, Some("admin:osm:relation:2202162".to_string()));
    assert_eq!(a.insee, "53");
    assert_eq!(a.level, 4);
    assert_eq!(a.zip_codes, vec!["29000", "35000"]);
    assert_eq!(a.country_codes, vec!["FR"]);
    assert_eq!(a.codes.len(), 3);
    assert_eq!(a.names.get("en"), Some("Brittany"));
    assert_eq!(a.labels.0.len(), 1);
    assert_eq!(a.labels.get("en"), Some("Brittany"));
    let orphan = zone(1, Some(7)).into_admin(&ids, &vec![], 0.5f64);
    assert_eq!(orphan.parent_id, None);
}

fn admin(id: &str, parent: Option<&str>) -> Admin<f64> {
    Admin {
        id: id.to_string(),
        level: 0,
        name: String::new(),
        label: String::new(),
        zip_codes: vec![],
        weight: 0.,
        insee: String::new(),
        zone_type: None,
        parent_id: parent.map(|p| p.to_string()),
        codes: vec![],
        country_codes: vec![],
        names: I18nProperties(vec![]),
        labels: I18nProperties(vec![]),
    }
}

#[test]
fn parents_of_a_region() {
    let all = vec![admin("city", Some("state")), admin("state", Some("country")), admin("country", None)];
    assert_eq!(parent_regions(&Some("state".to_string()), &all), vec![1, 2]);
    assert_eq!(parent_regions(&None, &all), Vec::<usize>::new());
    let broken = vec![admin("city", Some("unknown"))];
    assert_eq!(parent_regions(&Some("unknown".to_string()), &broken), Vec::<usize>::new());
}

fn gtfs(id: &str, location_type: Option<i32>, visible: Option<i32>, parent: Option<&str>) -> GtfsStop {
    GtfsStop {
        stop_id: id.to_string(),
        stop_name: format!("name {}", id),
        location_type,
        visible,
        parent_station: parent.map(|p| p.to_string()),
    }
}

#[test]
fn stops_conversion() {
    let s = gtfs("SA:main", Some(1), None, None).try_into(true, 0.).unwrap();
    assert_eq!(s.id, "stop_area:SA:main");
    assert_eq!(s.name, "name SA:main");
    assert_eq!(gtfs("SP", Some(0), None, None).try_into(true, 0.).unwrap_err(), StopConversionErr::NotStopArea);
    assert_eq!(gtfs("SA", Some(1), Some(0), None).try_into(true, 0.).unwrap_err(), StopConversionErr::InvisibleStop);
    assert_eq!(gtfs("SA", Some(1), Some(1), None).try_into(false, 0.).unwrap_err(), StopConversionErr::InvalidStop);
    assert!(gtfs("SA", None, None, None).try_into_with_warn(true, 0.).is_none());
}

#[test]
fn stop_points_are_counted() {
    let mut counts: Vec<StopPointCount> = vec![];
    gtfs("SP1", Some(0), None, Some("SA:a")).incr_stop_point(&mut counts);
    gtfs("SP2", None, None, Some("SA:a")).incr_stop_point(&mut counts);
    gtfs("SP3", None, None, Some("SA:b")).incr_stop_point(&mut counts);
    gtfs("SP4", Some(1), None, Some("SA:c")).incr_stop_point(&mut counts);
    gtfs("SP5", None, None, Some("")).incr_stop_point(&mut counts);
    let found: Vec<(&str, u32)> = counts.iter().map(|c| (c.id.as_str(), c.count)).collect();
    assert_eq!(found, vec![("stop_area:SA:a", 2), ("stop_area:SA:b", 1)]);
}

#[test]
fn upsert_counts_by_identifier() {
    let mut map: Vec<AdminEntry> = vec![];
    let a = AdminEntry { id: "a".to_string(), level: 8, name: "A".to_string(), zip_code: String::new(), weight: 1 };
    upsert(&a, &mut map);
    upsert(&a, &mut map);
    upsert(&AdminEntry { id: "b".to_string(), ..a.clone() }, &mut map);
    let found: Vec<(&str, u32)> = map.iter().map(|e| (e.id.as_str(), e.weight)).collect();
    assert_eq!(found, vec![("a", 2), ("b", 1)]);
}

#[test]
fn upsert_keeps_the_first_document() {
    let mut map: Vec<AdminEntry> = vec![];
    let first = AdminEntry { id: "a".to_string(), level: 8, name: "A".to_string(), zip_code: "20000".to_string(), weight: 5 };
    let later = AdminEntry { id: "a".to_string(), level: 9, name: "Other".to_string(), zip_code: String::new(), weight: 40 };
    upsert(&first, &mut map);
    upsert(&later, &mut map);
    upsert(&later, &mut map);
    assert_eq!(map.len(), 1);
    assert_eq!((map[0].level, map[0].name.as_str(), map[0].zip_code.as_str()), (8, "A", "20000"));
    assert_eq!(map[0].weight, 7);
}

fn settings(streets: bool, pois: bool) -> Settings {
    Settings {
        mode: None,
        pois: Poi { import: pois, config: None },
        streets: Street { import: streets, exclusions: StreetExclusion { highways: None } },
        database: None,
        nb_threads: None,
    }
}

#[test]
fn settings_validation() {
    assert!(validate(settings(true, false)).is_ok());
    assert!(validate(settings(false, true)).is_ok());
    match validate(settings(false, false)) {
        Err(Error::Invalid { msg }) => assert_eq!(
            msg,
            "Neither streets nor POIs import is enabled. Nothing to do. Use -s pois.import=true or -s streets.import=true"
        ),
        Ok(_) => panic!("expected an error"),
    }
    let s = ImportSettings {
        street: Some(StreetSettings { exclusion: StreetExclusion { highways: Some(vec!["footway".to_string()]) } }),
        poi: None,
        admin: None,
    };
    assert_eq!(s.invalid_highways(), vec!["footway"]);
    assert!(ImportSettings { street: None, poi: None, admin: None }.invalid_highways().is_empty());
}

fn cand(key: usize, zt: Option<ZoneType>, parent: Option<usize>, contains: bool) -> Candidate {
    Candidate { key, zone_type: zt, parent, contains }
}

#[test]
fn candidates_by_zone_type() {
    let cands = vec![
        cand(0, Some(ZoneType::Country), None, true),
        cand(1, None, None, true),
        cand(2, Some(ZoneType::City), None, true),
        cand(3, None, None, true),
    ];
    assert_eq!(rank_order(&cands), vec![1, 3, 2, 0]);
}

#[test]
fn hierarchies_with_condition() {
    let h = AdminHierarchy {
        links: vec![
            Some(AdminLink { zone_type: Some(ZoneType::City), parent: Some(1) }),
            Some(AdminLink { zone_type: Some(ZoneType::State), parent: Some(2) }),
            Some(AdminLink { zone_type: Some(ZoneType::Country), parent: Some(3) }),
            None,
        ],
    };
    let cands = vec![
        cand(2, Some(ZoneType::Country), Some(3), true),
        cand(0, Some(ZoneType::City), Some(1), true),
        cand(1, Some(ZoneType::State), Some(2), true),
    ];
    assert_eq!(admins_if_for_point(&h, &cands, &vec![true, true, true]), vec![vec![0, 1, 2]]);
    assert_eq!(admins_if_for_point(&h, &cands, &vec![true, false, true]), vec![vec![1, 2]]);
}

#[test]
fn registry_keys_and_links() {
    let mut r = AdminRegistry::new();
    let city = r.insert(&"city".to_string(), Some(ZoneType::City), &Some("state".to_string()));
    assert_eq!(city, 1);
    assert_eq!(r.ids, vec!["state".to_string(), "city".to_string()]);
    assert_eq!(r.hierarchy.links[0], None);
    assert_eq!(r.hierarchy.links[1], Some(AdminLink { zone_type: Some(ZoneType::City), parent: Some(0) }));
    let state = r.insert(&"state".to_string(), Some(ZoneType::State), &None);
    assert_eq!(state, 0);
    assert_eq!(r.hierarchy.links[0], Some(AdminLink { zone_type: Some(ZoneType::State), parent: None }));
    let again = r.insert(&"city".to_string(), None, &None);
    assert_eq!(again, 1);
    assert_eq!(r.hierarchy.links[1], Some(AdminLink { zone_type: None, parent: None }));
    assert_eq!(r.ids.len(), 2);
}

#[test]
fn one_region_per_zone_type_for_a_point() {
    let h = AdminHierarchy {
        links: vec![
            Some(AdminLink { zone_type: Some(ZoneType::City), parent: None }),
            Some(AdminLink { zone_type: Some(ZoneType::City), parent: None }),
            Some(AdminLink { zone_type: None, parent: None }),
            Some(AdminLink { zone_type: None, parent: None }),
        ],
    };
    let cands = vec![
        cand(1, Some(ZoneType::City), None, true),
        cand(0, Some(ZoneType::City), None, true),
        cand(2, None, None, true),
        cand(3, None, None, false),
    ];
    assert_eq!(admins_for_point(&h, &cands), vec![2, 0]);
}

#[test]
fn place_accessors() {
    let stop: Place<f64> = Place::Stop(new_stop("stop_area:1".to_string(), "Gare".to_string(), "Gare".to_string(), 0.));
    assert!(stop.is_stop());
    assert!(!stop.is_admin() && !stop.is_street() && !stop.is_addr() && !stop.is_poi());
    assert!(stop.poi().is_none());
    assert_eq!(stop.label(), "Gare");
    assert_eq!(mimirsbrunn::osm::obj_kind(mimirsbrunn::osm::OsmId::Way(3)), 1);
}

#[test]
fn short_address_label() {
    let place = FormatPlaceHolder::from_addr("20".to_string(), "rue hector malot".to_string());
    let label = get_short_addr_label::<f64>(place, &vec![], &vec!["fr".to_string()]);
    assert_eq!(label, "20 rue hector malot");
}

#[test]
fn configuration_sources() {
    let dir = Some("/etc/mimir".to_string());
    let named = Some("fr".to_string());
    assert_eq!(
        ImportSettings::config_sources(&dir, &named).unwrap(),
        vec![
            ConfigSource::File { dir: "/etc/mimir".to_string(), stem: "default".to_string() },
            ConfigSource::File { dir: "/etc/mimir".to_string(), stem: "fr".to_string() },
        ]
    );
    assert_eq!(
        ImportSettings::config_sources(&dir, &None).unwrap(),
        vec![ConfigSource::File { dir: "/etc/mimir".to_string(), stem: "default".to_string() }]
    );
    assert_eq!(ImportSettings::config_sources(&None, &None).unwrap(), vec![ConfigSource::Embedded]);
    assert_eq!(ImportSettings::config_sources(&None, &named), Err(SettingsError::NameWithoutConfigDir));
}

#[test]
fn test_load_stops() {
    // The lines of a stops.txt file: stop areas, a hidden one, and stop points.
    let lines = vec![
        gtfs("SA:main_station", Some(1), Some(1), None),
        gtfs("SA:second_station", Some(1), None, None),
        gtfs("SA:known_by_all_dataset", Some(1), Some(1), None),
        gtfs("SA:station_no_city", Some(1), Some(1), None),
        gtfs("SA:weight_1_station", Some(1), Some(1), None),
        gtfs("SA:weight_3_station", Some(1), Some(1), None),
        gtfs("SA:with_elision_1", Some(1), Some(1), None),
        gtfs("SA:with_elision_2", Some(1), Some(1), None),
        gtfs("SA:hidden_station", Some(1), Some(0), None),
        gtfs("SP:main_1", Some(0), None, Some("SA:main_station")),
        gtfs("SP:second_1", None, None, Some("SA:second_station")),
        gtfs("SP:weight_1", Some(0), None, Some("SA:weight_1_station")),
        gtfs("SP:weight_3_a", Some(0), None, Some("SA:weight_3_station")),
        gtfs("SP:weight_3_b", Some(0), None, Some("SA:weight_3_station")),
        gtfs("SP:weight_3_c", None, None, Some("SA:weight_3_station")),
        gtfs("SP:entrance", Some(2), None, Some("SA:station_no_city")),
    ];
    let mut nb_stop_points: Vec<StopPointCount> = Vec::new();
    let stops: Vec<_> = lines
        .into_iter()
        .filter_map(|stop| {
            stop.incr_stop_point(&mut nb_stop_points);
            stop.try_into_with_warn(true, 0.)
        })
        .collect();
    let mut ids: Vec<String> = stops.iter().map(|s| s.id.clone()).collect();
    ids.sort();
    assert_eq!(
        ids,
        vec![
            "stop_area:SA:known_by_all_dataset",
            "stop_area:SA:main_station",
            "stop_area:SA:second_station",
            "stop_area:SA:station_no_city",
            "stop_area:SA:weight_1_station",
            "stop_area:SA:weight_3_station",
            "stop_area:SA:with_elision_1",
            "stop_area:SA:with_elision_2",
        ]
    );
    let weights: Vec<Option<u32>> = ids
        .iter()
        .map(|id| nb_stop_points.iter().find(|c| &c.id == id).map(|c| c.count))
        .collect();
    assert_eq!(weights, vec![None, Some(1), Some(1), None, Some(1), Some(3), None, None]);
}

#[test]
fn b2_settings_decisions() {
    assert_eq!(run_mode(Some("prod".to_string()), Some("testing".to_string())), Ok("prod".to_string()));
    assert_eq!(run_mode(None, Some("testing".to_string())), Ok("testing".to_string()));
    assert_eq!(run_mode(None, None), Err(B2SettingsError::NoRunMode));
    assert_eq!(elasticsearch_url_key("testing"), "ELASTICSEARCH_TEST_URL");
    assert_eq!(elasticsearch_url_key("prod"), "ELASTICSEARCH_URL");
    assert_eq!(service_port(4000, None), Ok(4000));
    assert_eq!(service_port(4000, Some("8080".to_string())), Ok(8080));
    assert_eq!(service_port(4000, Some("+81".to_string())), Ok(81));
    assert_eq!(service_port(4000, Some("70000".to_string())), Err(B2SettingsError::InvalidPort));
    assert_eq!(service_port(4000, Some("port".to_string())), Err(B2SettingsError::InvalidPort));
    assert_eq!(service_port(70000, None), Err(B2SettingsError::PortOutOfRange));
    assert_eq!(service_port(-1, Some("80".to_string())), Err(B2SettingsError::PortOutOfRange));
}

#[test]
fn index_settings_by_prefix() {
    let settings = vec![
        "elasticsearch.street.settings.number_of_shards=2".to_string(),
        "elasticsearch.poi.mappings=y".to_string(),
        "pois.import=true".to_string(),
    ];
    assert_eq!(street_index_settings(&settings), vec!["elasticsearch.street.settings.number_of_shards=2".to_string()]);
    assert_eq!(poi_index_settings(&settings), vec!["elasticsearch.poi.mappings=y".to_string()]);
    assert_eq!(settings_with_prefix(&settings, "pois."), vec!["pois.import=true".to_string()]);
}
