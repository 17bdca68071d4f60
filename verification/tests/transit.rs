use mimirsbrunn::transit::{
    compare_lines, get_lines, last_values, to_mimir, ContributorRecord, Line, LineRecord, Rgb, StopAreaRecord,
};

fn s(x: &str) -> String {
    x.to_string()
}

fn line(id: &str, name: &str, code: Option<&str>, sort_order: Option<u32>) -> LineRecord {
    LineRecord {
        id: s(id),
        name: s(name),
        code: code.map(s),
        color: None,
        text_color: None,
        sort_order,
        commercial_mode: None,
        network: None,
        physical_modes: vec![],
    }
}

fn ids(lines: &[Line]) -> Vec<&str> {
    lines.iter().map(|l| l.id.as_str()).collect()
}

#[test]
fn line_from_transit_model() {
    let rec = LineRecord {
        id: s("L 1"),
        name: s("Ligne 1"),
        code: Some(s("1")),
        color: Some(Rgb { red: 255, green: 0, blue: 10 }),
        text_color: None,
        sort_order: Some(4),
        commercial_mode: Some((s("CM 1"), s("Bus"))),
        network: Some((s("TCL"), s("Réseau TCL"))),
        physical_modes: vec![(s("Bus"), s("Bus")), (s("Coach"), s("Autocar"))],
    };
    let l = Line::from_transit_model(&rec);
    assert_eq!(l.id, "line:L1");
    assert_eq!(l.name, "Ligne 1");
    assert_eq!(l.code.as_deref(), Some("1"));
    assert_eq!(l.color, Some(Rgb { red: 255, green: 0, blue: 10 }));
    assert_eq!(l.text_color, None);
    assert_eq!(l.sort_order, Some(4));
    let cm = l.commercial_mode.unwrap();
    assert_eq!((cm.id.as_str(), cm.name.as_str()), ("commercial_mode:CM1", "Bus"));
    let n = l.network.unwrap();
    assert_eq!((n.id.as_str(), n.name.as_str()), ("network:TCL", "Réseau TCL"));
    let pm: Vec<(&str, &str)> = l.physical_modes.iter().map(|m| (m.id.as_str(), m.name.as_str())).collect();
    assert_eq!(pm, vec![("physical_mode:Bus", "Bus"), ("physical_mode:Coach", "Autocar")]);
}

#[test]
fn lines_in_human_order() {
    let records = vec![
        line("l1", "Bus 11", Some("11"), None),
        line("l2", "Bus 3", Some("3"), None),
        line("l3", "Tram", None, Some(2)),
        line("l4", "Metro", None, Some(1)),
        line("l5", "Line 10", None, None),
        line("l6", "Line 9", Some("9"), None),
    ];
    let lines = get_lines(&records);
    assert_eq!(ids(&lines), vec!["line:l4", "line:l3", "line:l2", "line:l6", "line:l1", "line:l5"]);
}

#[test]
fn equal_lines_keep_their_order() {
    let records = vec![
        line("b", "Navette", Some("N"), Some(3)),
        line("a", "Navette", Some("N"), Some(3)),
        line("c", "Navette", None, Some(3)),
    ];
    let lines = get_lines(&records);
    assert_eq!(ids(&lines), vec!["line:b", "line:a", "line:c"]);
}

#[test]
fn line_comparison() {
    let a = Line::from_transit_model(&line("a", "item3", None, None));
    let b = Line::from_transit_model(&line("b", "item200", None, None));
    assert_eq!(compare_lines(&a, &b), -1);
    assert_eq!(compare_lines(&b, &a), 1);
    assert_eq!(compare_lines(&a, &a), 0);
    let c = Line::from_transit_model(&line("c", "zzz", None, Some(7)));
    assert_eq!(compare_lines(&c, &a), -1);
}

#[test]
fn codes_keep_the_last_value() {
    let pairs = vec![(s("source"), s("1")), (s("gtfs"), s("x")), (s("source"), s("2"))];
    let m = last_values(&pairs);
    assert_eq!(m, vec![(s("gtfs"), s("x")), (s("source"), s("2"))]);
}

#[test]
fn stop_area_to_mimir() {
    let stop_area = StopAreaRecord {
        id: s("StopArea:SA 1"),
        name: s("Gare de Lyon"),
        visible: true,
        timezone: Some(s("Europe/Paris")),
        codes: vec![(s("source"), s("a")), (s("source"), s("b"))],
        properties: vec![(s("wheelchair"), s("yes"))],
        comment_links: vec![s("c2"), s("missing"), s("c1")],
        commercial_modes: vec![(s("Metro"), s("Métro"))],
        physical_modes: vec![(s("RapidTransit"), s("RER"))],
        contributors: vec![ContributorRecord {
            id: s("C1"),
            name: s("RATP"),
            license: Some(s("ODbL")),
            website: None,
        }],
        lines: vec![line("B", "RER B", Some("B"), None), line("A", "RER A", Some("A"), None)],
    };
    let comments = vec![(s("c1"), s("first")), (s("c2"), s("second"))];
    let stop = to_mimir(&stop_area, &comments, 0.);
    assert_eq!(stop.id, "stop_area:SA1");
    assert_eq!(stop.label, "Gare de Lyon");
    assert_eq!(stop.name, "Gare de Lyon");
    assert_eq!(stop.commercial_modes.len(), 1);
    assert_eq!(stop.commercial_modes[0].id, "commercial_mode:Metro");
    assert_eq!(stop.commercial_modes[0].name, "Métro");
    assert_eq!(stop.physical_modes[0].id, "physical_mode:RapidTransit");
    let names: Vec<&str> = stop.comments.iter().map(|c| c.name.as_str()).collect();
    assert_eq!(names, vec!["second", "first"]);
    assert_eq!(stop.feed_publishers.len(), 1);
    assert_eq!(stop.feed_publishers[0].id, "C1");
    assert_eq!(stop.feed_publishers[0].name, "RATP");
    assert_eq!(stop.feed_publishers[0].license, "ODbL");
    assert_eq!(stop.feed_publishers[0].url, "");
    assert_eq!(ids(&stop.lines), vec!["line:A", "line:B"]);
    assert_eq!(stop.timezone, "Europe/Paris");
    assert_eq!(stop.codes, vec![(s("source"), s("b"))]);
    assert_eq!(stop.properties, vec![(s("wheelchair"), s("yes"))]);
    assert!(stop.autocomplete_visible);
    assert!(stop.zip_codes.is_empty() && stop.coverages.is_empty() && stop.country_codes.is_empty());
    assert_eq!(stop.distance, None);
    assert!(stop.administrative_regions.is_empty());
    assert_eq!(stop.weight, 0.);
}

#[test]
fn hidden_stop_area_without_time_zone() {
    let stop_area = StopAreaRecord {
        id: s("SA:2"),
        name: s("Dépôt"),
        visible: false,
        timezone: None,
        codes: vec![],
        properties: vec![],
        comment_links: vec![],
        commercial_modes: vec![],
        physical_modes: vec![],
        contributors: vec![],
        lines: vec![],
    };
    let stop = to_mimir(&stop_area, &vec![], 0.);
    assert_eq!(stop.id, "stop_area:SA:2");
    assert_eq!(stop.timezone, "");
    assert!(!stop.autocomplete_visible);
    assert!(stop.lines.is_empty() && stop.comments.is_empty() && stop.codes.is_empty());
}

#[test]
fn ten_digit_codes_compare() {
    let records = vec![line("a", "Bus", Some("4000000000"), None), line("b", "Bus", Some("999"), None)];
    let lines = get_lines(&records);
    assert_eq!(ids(&lines), vec!["line:b", "line:a"]);
}
