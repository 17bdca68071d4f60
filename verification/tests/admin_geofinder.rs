use geo::{BoundingRect, Contains};
use geo_types::{Coord, LineString, MultiPolygon, Point, Polygon};
use mimirsbrunn::admin_geofinder::{admins_for_point, AdminRegistry, Candidate};
use mimirsbrunn::places::ZoneType;

struct TestAdmin {
    id: String,
    zone_type: Option<ZoneType>,
    parent: Option<String>,
    boundary: MultiPolygon<f64>,
}

/// The regions registered, with the key each got.
struct Finder {
    registry: AdminRegistry,
    admins: Vec<(usize, TestAdmin)>,
}

impl Finder {
    fn new() -> Finder {
        Finder { registry: AdminRegistry::new(), admins: vec![] }
    }

    fn insert(&mut self, a: TestAdmin) {
        let k = self.registry.insert(&a.id, a.zone_type, &a.parent);
        self.admins.push((k, a));
    }

    fn get(&self, p: Point<f64>) -> Vec<String> {
        let cands: Vec<Candidate> = self
            .admins
            .iter()
            .filter(|(_, a)| {
                let bb = a.boundary.bounding_rect().unwrap();
                bb.min().x <= p.x() && p.x() <= bb.max().x && bb.min().y <= p.y() && p.y() <= bb.max().y
            })
            .map(|(k, a)| Candidate {
                key: *k,
                zone_type: a.zone_type,
                parent: self.registry.hierarchy.links[*k].and_then(|l| l.parent),
                contains: a.boundary.contains(&p),
            })
            .collect();
        admins_for_point(&self.registry.hierarchy, &cands)
            .into_iter()
            .map(|j| self.registry.ids[cands[j].key].clone())
            .collect()
    }
}

fn p(x: f64, y: f64) -> Point<f64> {
    Point(Coord { x, y })
}

fn make_complex_admin(
    id: &str,
    offset: f64,
    zone_type: Option<ZoneType>,
    zone_size: f64,
    parent: Option<&str>,
) -> TestAdmin {
    let pts = [
        (3., 0.),
        (6., 0.),
        (9., 3.),
        (9., 6.),
        (6., 9.),
        (3., 9.),
        (0., 6.),
        (0., 3.),
        (3., 0.),
    ];
    let shape = Polygon::new(
        LineString::from(
            pts.iter()
                .map(|&(x, y)| (x * zone_size + offset, y * zone_size + offset))
                .collect::<Vec<_>>(),
        ),
        vec![],
    );
    TestAdmin {
        id: id.to_string(),
        zone_type,
        parent: parent.map(|s| s.to_string()),
        boundary: MultiPolygon(vec![shape]),
    }
}

fn make_admin(offset: f64, zt: Option<ZoneType>) -> TestAdmin {
    make_complex_admin(&format!("admin:offset:{}", offset), offset, zt, 1., None)
}

#[test]
fn test_two_fake_admins() {
    let mut finder = Finder::new();
    finder.insert(make_admin(40., Some(ZoneType::City)));
    finder.insert(make_admin(43., Some(ZoneType::State)));

    for coord in [p(48., 41.), p(411., 41.), p(51., 54.), p(53., 53.)].iter() {
        assert!(finder.get(*coord).is_empty());
    }

    let admins = finder.get(p(44., 44.));
    assert_eq!(admins.len(), 1);
    assert_eq!(admins[0], "admin:offset:40");
    let admins = finder.get(p(48., 48.));
    assert_eq!(admins.len(), 1);
    assert_eq!(admins[0], "admin:offset:43");

    let mut admins = finder.get(p(46., 46.));
    admins.sort();
    assert_eq!(admins.len(), 2);
    assert_eq!(admins[0], "admin:offset:40");
    assert_eq!(admins[1], "admin:offset:43");
}

#[test]
fn test_two_admin_same_zone_type() {
    let mut finder = Finder::new();
    finder.insert(make_admin(40., Some(ZoneType::City)));
    finder.insert(make_admin(43., Some(ZoneType::City)));
    let admins = finder.get(p(46., 46.));
    assert_eq!(admins.len(), 1);
}

#[test]
fn test_two_no_zone_type() {
    let mut finder = Finder::new();
    finder.insert(make_admin(40., None));
    finder.insert(make_admin(43., None));
    let admins = finder.get(p(46., 46.));
    assert_eq!(admins.len(), 2);
}

fn bob_hierarchy(finder: &mut Finder) {
    finder.insert(make_complex_admin("bob_city", 40., Some(ZoneType::City), 1., Some("bob_state")));
    finder.insert(make_complex_admin(
        "bob_state",
        40.,
        Some(ZoneType::StateDistrict),
        2.,
        Some("bob_country"),
    ));
    finder.insert(make_complex_admin("bob_country", 40., Some(ZoneType::Country), 3., None));
}

#[test]
fn test_hierarchy() {
    let mut finder = Finder::new();
    bob_hierarchy(&mut finder);
    let admins = finder.get(p(46., 46.));
    assert_eq!(admins.len(), 3);
    assert_eq!(admins[0], "bob_city");
    assert_eq!(admins[1], "bob_state");
    assert_eq!(admins[2], "bob_country");
}

#[test]
fn test_hierarchy_orphan() {
    let mut finder = Finder::new();
    bob_hierarchy(&mut finder);
    finder.insert(make_complex_admin(
        "another_state",
        40.,
        Some(ZoneType::StateDistrict),
        2.,
        Some("bob_country"),
    ));
    let admins = finder.get(p(46., 46.));
    assert_eq!(admins.len(), 3);
    assert_eq!(admins[0], "bob_city");
    assert_eq!(admins[1], "bob_state");
    assert_eq!(admins[2], "bob_country");
}

#[test]
fn test_hierarchy_and_not_typed_zone() {
    let mut finder = Finder::new();
    bob_hierarchy(&mut finder);
    finder.insert(make_complex_admin("no_typed_zone", 40., None, 2., None));
    let admins = finder.get(p(46., 46.));
    assert_eq!(admins.len(), 4);
    assert_eq!(admins[0], "no_typed_zone");
    assert_eq!(admins[1], "bob_city");
    assert_eq!(admins[2], "bob_state");
    assert_eq!(admins[3], "bob_country");
}
