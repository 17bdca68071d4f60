use std::collections::BTreeSet;
use mimirsbrunn::osm::{Node, OsmObj, Relation, Tags, Way, OsmObjects, middle_node};
use mimirsbrunn::osm_reader::{
    format_zip_codes, get_names_from_tags, get_osm_codes_from_tags, read_insee, read_zip_codes,
    AdminMatcher,
};

fn tags(v: &[(&str, &str)]) -> Tags {
    Tags { entries: v.iter().map(|&(k, v)| (k.to_string(), v.to_string())).collect() }
}

fn rel(t: &[(&str, &str)]) -> OsmObj {
    OsmObj::Relation(Relation { id: 1, refs: vec![], tags: tags(t) })
}

#[test]
fn admin_matcher_levels() {
    let m = AdminMatcher::new([8u32, 9].iter().cloned().collect::<BTreeSet<u32>>());
    assert!(m.is_admin(&rel(&[("boundary", "administrative"), ("admin_level", "8")])));
    assert!(!m.is_admin(&rel(&[("boundary", "administrative"), ("admin_level", "4")])));
    assert!(!m.is_admin(&rel(&[("boundary", "political"), ("admin_level", "8")])));
    assert!(!m.is_admin(&rel(&[("boundary", "administrative"), ("admin_level", "huit")])));
    let with_zero = AdminMatcher::new([0u32].iter().cloned().collect::<BTreeSet<u32>>());
    assert!(with_zero.is_admin(&rel(&[("boundary", "administrative"), ("admin_level", "huit")])));
    assert!(!with_zero.is_admin(&rel(&[("boundary", "administrative")])));
    assert!(!m.is_admin(&rel(&[("boundary", "administrative")])));
    let way = OsmObj::Way(Way { id: 1, nodes: vec![], tags: tags(&[("boundary", "administrative"), ("admin_level", "8")]) });
    assert!(!m.is_admin(&way));
}

#[test]
fn zip_code_formats() {
    assert_eq!(format_zip_codes(&vec![]), "");
    assert_eq!(format_zip_codes(&vec!["75001".to_string()]), " (75001)");
    assert_eq!(format_zip_codes(&vec!["75001".to_string(), "75020".to_string()]), " (75001-75020)");
    assert_eq!(format_zip_codes(&vec!["75001".to_string(), "75002".to_string(), "75001".to_string()]), " (75001)");
}

#[test]
fn zip_codes_are_split_and_sorted() {
    assert_eq!(read_zip_codes(&tags(&[("addr:postcode", "75020;;75001")])), vec!["75001", "75020"]);
    assert_eq!(read_zip_codes(&tags(&[("postal_code", "20000")])), vec!["20000"]);
    assert_eq!(
        read_zip_codes(&tags(&[("addr:postcode", "1"), ("postal_code", "2")])),
        vec!["1"]
    );
    assert!(read_zip_codes(&tags(&[])).is_empty());
    assert_eq!(read_insee(&tags(&[("ref:INSEE", "2A004")])), Some(&"2A004".to_string()));
}

#[test]
fn codes_and_names_from_tags() {
    let t = tags(&[
        ("ISO3166-2", "FR-BRE"),
        ("name", "Bretagne"),
        ("name:br", "Breizh"),
        ("name:en", "Brittany"),
        ("ref:INSEE", "53"),
        ("wikidata", "Q12130"),
        ("wikipedia", "fr:Bretagne"),
    ]);
    let codes = get_osm_codes_from_tags(&t);
    let keys: Vec<&str> = codes.iter().map(|(k, _)| k.as_str()).collect();
    assert_eq!(keys, vec!["ISO3166-2", "ref:INSEE", "wikidata"]);
    let names = get_names_from_tags(&t, &vec!["en".to_string(), "de".to_string()]);
    assert_eq!(names.0.len(), 1);
    assert_eq!(names.get("en"), Some("Brittany"));
    assert_eq!(names.get("br"), None);
}

#[test]
fn middle_node_of_a_way() {
    let objects = OsmObjects {
        nodes: vec![
            Node { id: 1, decimicro_lat: 10, decimicro_lon: 10 },
            Node { id: 4, decimicro_lat: 40, decimicro_lon: 40 },
        ],
        ways: vec![],
    };
    let way = Way { id: 9, nodes: vec![1, 2, 3, 4, 5], tags: tags(&[]) };
    assert_eq!(middle_node(&way, &objects).map(|n| n.id), Some(4));
    let way = Way { id: 9, nodes: vec![1, 2, 3], tags: tags(&[]) };
    assert_eq!(middle_node(&way, &objects).map(|n| n.id), None);
}

#[test]
fn admin_matcher_accepts_exactly_its_levels() {
    let levels: BTreeSet<u32> = [2u32, 8, 10].iter().cloned().collect();
    let m = AdminMatcher::new(levels.clone());
    for l in 0u32..12 {
        let text = l.to_string();
        let obj = rel(&[("boundary", "administrative"), ("admin_level", text.as_str())]);
        assert_eq!(m.is_admin(&obj), levels.contains(&l));
    }
}
