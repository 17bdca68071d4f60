use mimirsbrunn::osm::{OsmId, OsmObj, OsmObjects, Ref, Relation, Tags, Way};
use mimirsbrunn::places::{Admin, I18nProperties, ZoneType};
use mimirsbrunn::streets::{compute_street_weight, is_valid_obj, streets};

fn tags(v: &[(&str, &str)]) -> Tags {
    Tags { entries: v.iter().map(|&(k, v)| (k.to_string(), v.to_string())).collect() }
}

fn city(id: &str, name: &str, weight: f64) -> Admin<f64> {
    Admin {
        id: id.to_string(),
        level: 8,
        name: name.to_string(),
        label: String::new(),
        zip_codes: vec!["20000".to_string()],
        weight,
        insee: String::new(),
        zone_type: Some(ZoneType::City),
        parent_id: None,
        codes: vec![],
        country_codes: vec![],
        names: I18nProperties(vec![]),
        labels: I18nProperties(vec![]),
    }
}

#[test]
fn valid_street_objects() {
    let excluded = vec!["footway".to_string()];
    let way = |t: &[(&str, &str)]| OsmObj::Way(Way { id: 1, nodes: vec![], tags: tags(t) });
    assert!(is_valid_obj(&way(&[("highway", "primary"), ("name", "Rue")]), &excluded));
    assert!(!is_valid_obj(&way(&[("highway", "footway"), ("name", "Rue")]), &excluded));
    assert!(!is_valid_obj(&way(&[("highway", ""), ("name", "Rue")]), &excluded));
    assert!(!is_valid_obj(&way(&[("highway", "primary")]), &excluded));
    let rel = OsmObj::Relation(Relation { id: 1, refs: vec![], tags: tags(&[("type", "associatedStreet")]) });
    assert!(is_valid_obj(&rel, &excluded));
}

fn way(id: i64, name: Option<&str>) -> Way {
    let t: Vec<(&str, &str)> = match name {
        Some(n) => vec![("highway", "residential"), ("name", n)],
        None => vec![("highway", "residential")],
    };
    Way { id, nodes: vec![], tags: tags(&t) }
}

#[test]
fn streets_from_relations_and_grouped_ways() {
    let ways = vec![
        way(10, Some("Cours Napoléon")),
        way(11, Some("Cours Napoléon")),
        way(12, Some("Rue Fesch")),
        way(5, Some("Rue Fesch")),
        way(13, Some("Avenue")),
        way(14, None),
        way(15, Some("Cours Napoléon")),
    ];
    let ajaccio = city("admin:ajaccio", "Ajaccio", 0.5);
    let other = city("admin:other", "Bastia", 0.1);
    let way_admins = vec![
        vec![ajaccio.clone()],
        vec![ajaccio.clone()],
        vec![ajaccio.clone()],
        vec![ajaccio.clone()],
        vec![ajaccio.clone()],
        vec![],
        vec![other.clone()],
    ];
    let relations = vec![Relation {
        id: 77,
        refs: vec![
            Ref { member: OsmId::Way(99), role: "street".to_string() },
            Ref { member: OsmId::Way(13), role: "street".to_string() },
        ],
        tags: tags(&[("type", "associatedStreet"), ("name", "Avenue du Premier Consul")]),
    }];
    let objects = OsmObjects { nodes: vec![], ways };
    let mut result = streets(&relations, &objects, &way_admins, 0.);
    let ids: Vec<&str> = result.iter().map(|s| s.id.as_str()).collect();
    assert_eq!(
        ids,
        vec!["street:osm:relation:77", "street:osm:way:10", "street:osm:way:15", "street:osm:way:5"]
    );
    assert_eq!(result[0].name, "Avenue du Premier Consul");
    assert_eq!(result[0].label, "Avenue du Premier Consul (Ajaccio)");
    assert_eq!(result[1].label, "Cours Napoléon (Ajaccio)");
    assert_eq!(result[2].label, "Cours Napoléon (Bastia)");
    assert_eq!(result[3].name, "Rue Fesch");
    assert_eq!(result[3].zip_codes, vec!["20000".to_string()]);
    compute_street_weight(&mut result);
    assert_eq!(result[0].weight, 0.5);
    assert_eq!(result[2].weight, 0.1);
}
