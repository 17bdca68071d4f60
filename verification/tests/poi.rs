use mimirsbrunn::osm::{Relation, Way};
use mimirsbrunn::poi::pois;
use mimirsbrunn::osm::{Node, OsmObj, Tags};
use mimirsbrunn::places::{Admin, I18nProperties, PoiType, ZoneType};
use mimirsbrunn::addresses::{Addr, OpenAddress};
use mimirsbrunn::poi::{add_address, add_children, FoundPlace, Poi};
use mimirsbrunn::poi::{
    compute_weight, format_poi_id, into_poi, parse_poi, OsmTagsFilter, PoiConfig, PoiError,
    PoiImportError, Rule,
};
use serde_json::Value;

fn tags(v: &[(&str, &str)]) -> Tags {
    Tags { entries: v.iter().map(|&(k, v)| (k.to_string(), v.to_string())).collect() }
}

fn string_field(v: &Value, key: &str) -> Result<String, String> {
    v.get(key)
        .and_then(|x| x.as_str())
        .map(|s| s.to_string())
        .ok_or_else(|| format!("missing field `{}`", key))
}

fn array_field<'a>(v: &'a Value, key: &str) -> Result<&'a Vec<Value>, String> {
    v.get(key).and_then(|x| x.as_array()).ok_or_else(|| format!("missing field `{}`", key))
}

/// Reads a configuration of points of interest written in JSON, then checks it.
fn from_str(s: &str) -> Result<PoiConfig, String> {
    let v: Value = serde_json::from_str(s).map_err(|e| e.to_string())?;
    if !v.is_object() {
        return Err("not an object".to_string());
    }
    let mut poi_types = vec![];
    for t in array_field(&v, "types")? {
        poi_types.push(PoiType { id: string_field(t, "id")?, name: string_field(t, "name")? });
    }
    let mut rules = vec![];
    for r in array_field(&v, "rules")? {
        let mut filters = vec![];
        for f in array_field(r, "osm_tags_filters")? {
            filters.push(OsmTagsFilter { key: string_field(f, "key")?, value: string_field(f, "value")? });
        }
        rules.push(Rule { osm_tags_filters: filters, poi_type_id: string_field(r, "type")? });
    }
    let config = PoiConfig { poi_types, rules };
    config.check().map_err(|e| format!("{:?}", e))?;
    Ok(config)
}

#[test]
fn parsing_errors() {
    from_str("").unwrap_err();
    from_str("{}").unwrap_err();
    from_str("42").unwrap_err();
    from_str("{").unwrap_err();
    from_str(r#"{"types": []}"#).unwrap_err();
    from_str(r#"{"rules": []}"#).unwrap_err();
    from_str(r#"{"types": [], "rules": []}"#).unwrap();
    from_str(r#"{"types": [{"id": "poi_type:foo"}], "rules": []}"#).unwrap_err();
    from_str(r#"{"types": [{"name": "bar"}], "rules": []}"#).unwrap_err();
    from_str(r#"{"types": [{"id": "poi_type:foo", "name": "bar"}], "rules": []}"#).unwrap();
}

#[test]
fn check_tests() {
    from_str(
        r#"{
        "types": [
            {"id": "poi_type:bob", "name": "Bob"},
            {"id": "poi_type:bob", "name": "Bobitto"}
        ],
        "rules": []
    }"#,
    )
    .unwrap_err();
    from_str(
        r#"{
        "types": [{"id": "poi_type:bob", "name": "Bob"}],
        "rules": [
            {
                "osm_tags_filters": [{"key": "foo", "value": "bar"}],
                "type": "bobette"
            }
        ]
    }"#,
    )
    .unwrap_err();
}

#[test]
fn check_with_colon() {
    let json = r#"{
        "types": [
            {"id": "poi_type:amenity:bicycle_rental", "name": "Station VLS"},
            {"id": "poi_type:amenity:parking", "name": "Parking"}
        ],
        "rules": [
            {
                "osm_tags_filters": [
                    {"key": "bicycle_rental", "value": "true"}
                ],
                "type": "poi_type:amenity:bicycle_rental"
            },
            {
                "osm_tags_filters": [
                    {"key": "amenity", "value": "parking:effia"}
                ],
                "type": "poi_type:amenity:parking"
            }
        ]
    }"#;
    let c = from_str(json).unwrap();
    assert_eq!(
        Some("poi_type:amenity:bicycle_rental"),
        c.get_poi_id(&tags(&[("bicycle_rental", "true")]))
    );
    assert_eq!(
        Some("poi_type:amenity:parking"),
        c.get_poi_id(&tags(&[("amenity", "parking:effia")]))
    );
}

fn bob_config() -> PoiConfig {
    let json = r#"{
        "types": [
            {"id": "poi_type:bob_titi", "name": "Bob is Bobette and Titi is Toto"},
            {"id": "poi_type:bob", "name": "Bob is Bobette"},
            {"id": "poi_type:titi", "name": "Titi is Toto"},
            {"id": "poi_type:foo", "name": "Foo is Bar"}
        ],
        "rules": [
            {
                "osm_tags_filters": [
                    {"key": "bob", "value": "bobette"},
                    {"key": "titi", "value": "toto"}
                ],
                "type": "poi_type:bob_titi"
            },
            {
                "osm_tags_filters": [
                    {"key": "bob", "value": "bobette"}
                ],
                "type": "poi_type:bob"
            },
            {
                "osm_tags_filters": [
                    {"key": "titi", "value": "toto"}
                ],
                "type": "poi_type:titi"
            },
            {
                "osm_tags_filters": [
                    {"key": "foo", "value": "bar"}
                ],
                "type": "poi_type:foo"
            }
        ]
    }"#;
    from_str(json).unwrap()
}

#[test]
fn check_all_tags_first_match() {
    let c = bob_config();
    assert_eq!(
        Some("poi_type:bob"),
        c.get_poi_id(&tags(&[("bob", "bobette"), ("titi", "tata"), ("foo", "bar")]))
    );
    assert_eq!(
        Some("poi_type:titi"),
        c.get_poi_id(&tags(&[("bob", "bobitta"), ("titi", "toto"), ("foo", "bar")]))
    );
    assert_eq!(
        Some("poi_type:bob_titi"),
        c.get_poi_id(&tags(&[("bob", "bobette"), ("titi", "toto"), ("foo", "bar")]))
    );
    assert_eq!(
        Some("poi_type:foo"),
        c.get_poi_id(&tags(&[("bob", "bobitta"), ("titi", "tata"), ("foo", "bar")]))
    );
}

#[test]
fn no_rule_matches_gives_no_type() {
    let c = bob_config();
    assert_eq!(None, c.get_poi_id(&tags(&[])));
    assert!(!c.is_poi(&tags(&[("bob", "bobitta")])));
    assert!(c.is_poi(&tags(&[("foo", "bar")])));
    assert_eq!(c.get_poi_type(&tags(&[("foo", "bar")])).unwrap().name, "Foo is Bar");
}

#[test]
fn check_reports_the_first_problem() {
    let c = PoiConfig {
        poi_types: vec![
            PoiType { id: "a".to_string(), name: "A".to_string() },
            PoiType { id: "b".to_string(), name: "B".to_string() },
            PoiType { id: "a".to_string(), name: "A again".to_string() },
        ],
        rules: vec![Rule { osm_tags_filters: vec![], poi_type_id: "z".to_string() }],
    };
    match c.check() {
        Err(PoiError::PoiTypeDuplicated { id }) => assert_eq!(id, "a"),
        other => panic!("unexpected {:?}", other),
    }
    let c = PoiConfig {
        poi_types: vec![PoiType { id: "a".to_string(), name: "A".to_string() }],
        rules: vec![
            Rule { osm_tags_filters: vec![], poi_type_id: "a".to_string() },
            Rule { osm_tags_filters: vec![], poi_type_id: "z".to_string() },
        ],
    };
    match c.check() {
        Err(PoiError::PoiTypeUndeclared { id }) => assert_eq!(id, "z"),
        other => panic!("unexpected {:?}", other),
    }
}

#[test]
fn poi_ids() {
    assert_eq!(format_poi_id("node", 42), "poi:osm:node:42");
    assert_eq!(format_poi_id("relation", -7), "poi:osm:relation:-7");
    assert_eq!(format_poi_id("way", i64::MIN), "poi:osm:way:-9223372036854775808");
}

fn admin(id: &str, name: &str, level: u32, zt: Option<ZoneType>, weight: f64, zips: &[&str]) -> Admin<f64> {
    Admin {
        id: id.to_string(),
        level,
        name: name.to_string(),
        label: String::new(),
        zip_codes: zips.iter().map(|s| s.to_string()).collect(),
        weight,
        insee: String::new(),
        zone_type: zt,
        parent_id: None,
        codes: vec![("ISO3166-1:alpha2".to_string(), "FR".to_string())],
        country_codes: vec![],
        names: I18nProperties(vec![]),
        labels: I18nProperties(vec![]),
    }
}

#[test]
fn parse_poi_of_a_node() {
    let c = bob_config();
    let obj = OsmObj::Node(
        Node { id: 5, decimicro_lat: 0, decimicro_lon: 0 },
        tags(&[("foo", "bar"), ("name", "Chez Bob")]),
    );
    let admins = vec![admin("c", "Paris", 8, Some(ZoneType::City), 0.5, &["75001"])];
    let poi = parse_poi(&obj, &c, admins, true, 0.).unwrap();
    assert_eq!(poi.id, "poi:osm:node:5");
    assert_eq!(poi.name, "Chez Bob");
    assert_eq!(poi.label, "Chez Bob (Paris)");
    assert_eq!(poi.zip_codes, vec!["75001".to_string()]);
    assert_eq!(poi.country_codes, vec!["FR".to_string()]);
    assert_eq!(poi.poi_type.id, "poi_type:foo");
    assert_eq!(poi.weight, 0.);
    let weighted = compute_weight(poi);
    assert_eq!(weighted.weight, 0.5);
}

#[test]
fn parse_poi_without_name_or_position() {
    let c = bob_config();
    let obj = OsmObj::Node(Node { id: 5, decimicro_lat: 0, decimicro_lon: 0 }, tags(&[("foo", "bar"), ("addr:postcode", "20000")]));
    let poi = parse_poi::<f64>(&obj, &c, vec![], true, 0.).unwrap();
    assert_eq!(poi.name, "Foo is Bar");
    assert_eq!(poi.zip_codes, vec!["20000".to_string()]);
    assert!(parse_poi::<f64>(&obj, &c, vec![], false, 0.).is_none());
    let other = OsmObj::Node(Node { id: 6, decimicro_lat: 0, decimicro_lon: 0 }, tags(&[("bob", "x")]));
    assert!(parse_poi::<f64>(&other, &c, vec![], true, 0.).is_none());
}

#[test]
fn into_poi_errors_and_result() {
    let types = vec![PoiType { id: "poi_type:amenity:bar".to_string(), name: "Bar".to_string() }];
    let props = vec![("amenity".to_string(), "bar".to_string())];
    match into_poi::<f64>(&"P 1".to_string(), &"Bob".to_string(), &"unknown".to_string(), &props, &types, None, vec![], 0.) {
        Err(PoiImportError::UnrecognizedPoiType { details }) => assert_eq!(details, "unknown"),
        other => panic!("unexpected {:?}", other),
    }
    match into_poi::<f64>(&"P 1".to_string(), &"Bob".to_string(), &"poi_type:amenity:bar".to_string(), &props, &types, None, vec![], 0.) {
        Err(PoiImportError::NoAdminFound { details }) => assert_eq!(details, "Could not find admins for POI P 1"),
        other => panic!("unexpected {:?}", other),
    }
    let found = vec![admin("c", "Ajaccio", 8, Some(ZoneType::City), 0.25, &[])];
    let poi = into_poi(&"P 1".to_string(), &"Bob".to_string(), &"poi_type:amenity:bar".to_string(), &props, &types, None, found, 0.)
        .unwrap();
    assert_eq!(poi.id, "poi:P1");
    assert_eq!(poi.label, "Bob (Ajaccio)");
    assert_eq!(poi.weight, 0.25);
    assert_eq!(poi.poi_type.name, "Bar");
    assert_eq!(poi.properties, props);
}

#[test]
fn pois_of_objects() {
    let c = bob_config();
    let objects = vec![
        OsmObj::Way(Way { id: 3, nodes: vec![], tags: tags(&[("titi", "toto")]) }),
        OsmObj::Relation(Relation { id: 4, refs: vec![], tags: tags(&[("foo", "bar")]) }),
        OsmObj::Node(Node { id: 5, decimicro_lat: 0, decimicro_lon: 0 }, tags(&[("nothing", "here")])),
    ];
    let admins: Vec<Vec<Admin<f64>>> = vec![vec![], vec![], vec![]];
    let found = pois(&objects, &c, admins, &vec![true, false, true], 0.);
    assert_eq!(found.len(), 1);
    assert_eq!(found[0].id, "poi:osm:way:3");
    assert_eq!(found[0].name, "Titi is Toto");
}

fn an_address(number: &str, admins: Vec<Admin<f64>>) -> Addr<f64> {
    let oa = OpenAddress {
        id: "oa1".to_string(),
        street: "rue du Port".to_string(),
        postcode: "20000".to_string(),
        district: String::new(),
        region: String::new(),
        city: "Ajaccio".to_string(),
        number: number.to_string(),
        unit: String::new(),
    };
    oa.into_addr(admins, "8.7", "41.9", 0.).unwrap()
}

#[test]
fn into_poi_takes_the_place_found() {
    let types = vec![PoiType { id: "poi_type:amenity:bar".to_string(), name: "Bar".to_string() }];
    let props = vec![];
    let near = vec![admin("a", "Ajaccio", 8, Some(ZoneType::City), 0.75, &[])];
    let at_position = vec![admin("b", "Bastia", 8, Some(ZoneType::City), 0.5, &[])];
    let place = FoundPlace { admins: near.clone(), address: Some(an_address("3", near)) };
    let poi = into_poi(&"P2".to_string(), &"Bob".to_string(), &"poi_type:amenity:bar".to_string(), &props, &types, Some(place), at_position.clone(), 0.)
        .unwrap();
    assert_eq!(poi.label, "Bob (Ajaccio)");
    assert_eq!(poi.weight, 0.75);
    let address = poi.address.unwrap();
    assert_eq!(address.house_number, "3");
    assert_eq!(address.street.name, "rue du Port");
    let without = into_poi(&"P2".to_string(), &"Bob".to_string(), &"poi_type:amenity:bar".to_string(), &props, &types, None, at_position, 0.)
        .unwrap();
    assert_eq!(without.label, "Bob (Bastia)");
    assert!(without.address.is_none());
    // A place found without an address of its own gives its regions and no address.
    let street_only = FoundPlace { admins: vec![admin("a", "Ajaccio", 8, Some(ZoneType::City), 0.75, &[])], address: None };
    let poi = into_poi(&"P2".to_string(), &"Bob".to_string(), &"poi_type:amenity:bar".to_string(), &props, &types, Some(street_only), vec![], 0.)
        .unwrap();
    assert_eq!(poi.label, "Bob (Ajaccio)");
    assert!(poi.address.is_none());
}

#[test]
fn add_address_takes_the_first_one_found() {
    let c = bob_config();
    let obj = OsmObj::Node(Node { id: 5, decimicro_lat: 0, decimicro_lon: 0 }, tags(&[("foo", "bar")]));
    let poi = parse_poi::<f64>(&obj, &c, vec![], true, 0.).unwrap();
    assert!(poi.address.is_none());
    let unchanged = add_address(poi, vec![]);
    assert!(unchanged.address.is_none());
    assert_eq!(unchanged.id, "poi:osm:node:5");
    let found = add_address(unchanged, vec![an_address("1", vec![]), an_address("2", vec![])]);
    assert_eq!(found.address.unwrap().house_number, "1");
}

fn bar(id: &str, name: &str) -> Poi<f64> {
    let types = vec![PoiType { id: "poi_type:amenity:bar".to_string(), name: "Bar".to_string() }];
    let found = vec![admin("c", "Ajaccio", 8, Some(ZoneType::City), 0.25, &[])];
    into_poi(&id.to_string(), &name.to_string(), &"poi_type:amenity:bar".to_string(), &vec![], &types, None, found, 0.)
        .unwrap()
}

#[test]
fn pois_hierarchy() {
    let pois = vec![bar("mall", "Mall"), bar("shop1", "Shop 1"), bar("shop2", "Shop 2")];
    assert!(pois.iter().all(|p| p.children.is_empty()));
    let parents = vec![("mall".to_string(), vec!["shop2".to_string(), "nowhere".to_string(), "shop1".to_string()])];
    let r = add_children(pois, &parents);
    assert_eq!(r.len(), 3);
    let names: Vec<&str> = r[0].children.iter().map(|c| c.name.as_str()).collect();
    assert_eq!(names, vec!["Shop 2", "Shop 1"]);
    assert_eq!(r[0].children[0].id, "poi:shop2");
    assert_eq!(r[0].children[0].label, "Shop 2 (Ajaccio)");
    assert!(r[1].children.is_empty() && r[2].children.is_empty());
    assert_eq!(r[1].id, "poi:shop1");
}
