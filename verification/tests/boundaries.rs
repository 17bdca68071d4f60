use mimirsbrunn::boundaries::{build_boundary, get_nodes};
use mimirsbrunn::osm::{Node, OsmId, OsmObjects, Ref, Relation, Tags, Way};

fn no_tags() -> Tags {
    Tags { entries: vec![] }
}

fn node(id: i64, lat: i32, lon: i32) -> Node {
    Node { id, decimicro_lat: lat, decimicro_lon: lon }
}

#[test]
fn test_get_nodes() {
    let way = Way { id: 12, nodes: vec![12, 15, 8, 68], tags: no_tags() };
    let objects = OsmObjects {
        nodes: vec![
            node(12, 12000000, 37000000),
            node(13, 15000000, 35000000),
            node(15, 75000000, 135000000),
            node(8, 55000000, 635000000),
            node(68, 455000000, 535000000),
        ],
        ways: vec![way.clone()],
    };
    let nodes = get_nodes(&way.nodes, &objects);
    assert_eq!(nodes.len(), 4);
    assert_eq!(nodes[0].id, 12);
    assert_eq!(nodes[1].id, 15);
    assert_eq!(nodes[2].id, 8);
    assert_eq!(nodes[3].id, 68);
}

fn outer(way: i64) -> Ref {
    Ref { member: OsmId::Way(way), role: "outer".to_string() }
}

#[test]
fn test_build_bounadry_empty() {
    let objects = OsmObjects { nodes: vec![], ways: vec![] };
    let relation = Relation {
        id: 12,
        refs: vec![outer(4), outer(65), Ref { member: OsmId::Way(22), role: "".to_string() }],
        tags: no_tags(),
    };
    assert!(build_boundary(&relation, &objects).is_none());
}

/// Named nodes: "start" is 1, "1" is 2, "2" is 3, "end" is 4.
fn relation_of(last: i64) -> (Relation, OsmObjects) {
    let nodes = vec![
        node(1, 34000000, 52000000),
        node(2, 54000000, 51000000),
        node(3, 24000000, 31000000),
        node(4, 64000000, 61000000),
    ];
    let ways = vec![
        Way { id: 10, nodes: vec![1, 2], tags: no_tags() },
        Way { id: 11, nodes: vec![2, 3], tags: no_tags() },
        Way { id: 12, nodes: vec![3, last], tags: no_tags() },
    ];
    let relation = Relation { id: 100, refs: vec![outer(10), outer(11), outer(12)], tags: no_tags() };
    (relation, OsmObjects { nodes, ways })
}

#[test]
fn test_build_bounadry_not_closed() {
    let (relation, objects) = relation_of(4);
    assert!(build_boundary(&relation, &objects).is_none());
}

#[test]
fn test_build_bounadry_closed() {
    let (relation, objects) = relation_of(1);
    let multipolygon = build_boundary(&relation, &objects);
    assert!(multipolygon.is_some());
    let multipolygon = multipolygon.unwrap();
    assert_eq!(multipolygon.len(), 1);
}

#[test]
fn closed_ring_starts_and_ends_on_the_same_node() {
    let (relation, objects) = relation_of(1);
    let rings = build_boundary(&relation, &objects).unwrap();
    let ids: Vec<i64> = rings[0].iter().map(|n| n.id).collect();
    assert_eq!(ids, vec![1, 2, 2, 3, 3, 1]);
}

#[test]
fn reversed_part_is_appended_backwards() {
    let (mut relation, mut objects) = relation_of(1);
    objects.ways[1].nodes = vec![3, 2];
    relation.refs[1] = outer(11);
    let rings = build_boundary(&relation, &objects).unwrap();
    let ids: Vec<i64> = rings[0].iter().map(|n| n.id).collect();
    assert_eq!(ids, vec![1, 2, 2, 3, 3, 1]);
}

#[test]
fn members_with_other_roles_are_ignored() {
    let (mut relation, objects) = relation_of(1);
    relation.refs[2].role = "inner".to_string();
    assert!(build_boundary(&relation, &objects).is_none());
    relation.refs[2].role = "enclave".to_string();
    assert!(build_boundary(&relation, &objects).is_some());
}
