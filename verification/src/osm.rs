use vstd::prelude::*;
use crate::text::{find_key, lookup};

verus! {

/// Identifier of an OpenStreetMap object, tagged by the kind of object.
#[derive(Debug, Clone, Copy, PartialEq, Eq, Structural)]
pub enum OsmId {
    Node(i64),
    Way(i64),
    Relation(i64),
}

/// A node: its identifier and its position in units of 1e-7 degree.
#[derive(Debug, Clone, Copy, PartialEq, Eq, Structural)]
pub struct Node {
    pub id: i64,
    pub decimicro_lat: i32,
    pub decimicro_lon: i32,
}

/// The tags of an object, as (key, value) pairs in order; a key occurs once.
#[derive(Debug, Clone)]
pub struct Tags {
    pub entries: Vec<(String, String)>,
}

impl Tags {
    /// The value of a tag, if the object has it.
    pub fn get(&self, key: &str) -> (r: Option<&String>)
        ensures
            match r {
                Some(v) => lookup(self.entries@, key@) == Some(v@),
                None => lookup(self.entries@, key@) is None,
            },
    {
        match find_key(&self.entries, key) {
            Some(i) => Some(&self.entries[i].1),
            None => None,
        }
    }
}

/// A way: its identifier, the identifiers of its nodes, in order, and its tags.
#[derive(Debug, Clone)]
pub struct Way {
    pub id: i64,
    pub nodes: Vec<i64>,
    pub tags: Tags,
}

/// A member of a relation, with the role it plays there.
#[derive(Debug, Clone)]
pub struct Ref {
    pub member: OsmId,
    pub role: String,
}

/// A relation: its identifier, its members and its tags.
#[derive(Debug, Clone)]
pub struct Relation {
    pub id: i64,
    pub refs: Vec<Ref>,
    pub tags: Tags,
}

/// An object of the map: a tagged node, a way or a relation.
#[derive(Debug, Clone)]
pub enum OsmObj {
    Node(Node, Tags),
    Way(Way),
    Relation(Relation),
}

/// The tags of an object.
pub open spec fn obj_tags(o: OsmObj) -> Tags {
    match o {
        OsmObj::Node(_, t) => t,
        OsmObj::Way(w) => w.tags,
        OsmObj::Relation(r) => r.tags,
    }
}

impl OsmObj {
    /// The tags of the object.
    pub fn tags(&self) -> (t: &Tags)
        ensures
            *t == obj_tags(*self),
    {
        match self {
            OsmObj::Node(_, t) => t,
            OsmObj::Way(w) => &w.tags,
            OsmObj::Relation(r) => &r.tags,
        }
    }
}

/// The nodes and ways that have been read, each looked up by its identifier.
#[derive(Debug, Clone)]
pub struct OsmObjects {
    pub nodes: Vec<Node>,
    pub ways: Vec<Way>,
}

/// The first node of the store that carries the given identifier.
pub open spec fn find_node(nodes: Seq<Node>, id: i64) -> Option<Node>
    decreases nodes.len(),
{
    if nodes.len() == 0 {
        None
    } else if nodes[0].id == id {
        Some(nodes[0])
    } else {
        find_node(nodes.drop_first(), id)
    }
}

/// The position in the store of the first way that carries the given identifier.
pub open spec fn find_way_index(ways: Seq<Way>, id: i64) -> Option<int>
    decreases ways.len(),
{
    if ways.len() == 0 {
        None
    } else if ways[0].id == id {
        Some(0)
    } else {
        match find_way_index(ways.drop_first(), id) {
            Some(i) => Some(i + 1),
            None => None,
        }
    }
}

pub proof fn lemma_find_way_index_bounds(ways: Seq<Way>, id: i64)
    ensures
        find_way_index(ways, id) matches Some(i) ==> 0 <= i < ways.len() && ways[i].id == id,
        find_way_index(ways, id) is None ==> forall|j: int| 0 <= j < ways.len() ==> ways[j].id != id,
    decreases ways.len(),
{
    if ways.len() > 0 && ways[0].id != id {
        lemma_find_way_index_bounds(ways.drop_first(), id);
        if find_way_index(ways.drop_first(), id) is None {
            assert forall|j: int| 0 <= j < ways.len() implies ways[j].id != id by {
                if j > 0 {
                    assert(ways[j] == ways.drop_first()[j - 1]);
                }
            }
        }
    }
}

pub proof fn lemma_find_node_first(nodes: Seq<Node>, id: i64, k: int)
    requires
        0 <= k < nodes.len(),
        nodes[k].id == id,
        forall|j: int| 0 <= j < k ==> nodes[j].id != id,
    ensures
        find_node(nodes, id) == Some(nodes[k]),
    decreases nodes.len(),
{
    if k > 0 {
        lemma_find_node_first(nodes.drop_first(), id, k - 1);
    }
}

pub proof fn lemma_find_node_none(nodes: Seq<Node>, id: i64)
    requires
        forall|j: int| 0 <= j < nodes.len() ==> nodes[j].id != id,
    ensures
        find_node(nodes, id) is None,
    decreases nodes.len(),
{
    if nodes.len() > 0 {
        lemma_find_node_none(nodes.drop_first(), id);
    }
}

/// Looks a node up by its identifier.
pub fn get_node(objects: &OsmObjects, id: i64) -> (r: Option<Node>)
    ensures
        r == find_node(objects.nodes@, id),
{
    let mut i: usize = 0;
    while i < objects.nodes.len()
        invariant
            i <= objects.nodes.len(),
            forall|j: int| 0 <= j < i ==> objects.nodes@[j].id != id,
        decreases objects.nodes.len() - i,
    {
        if objects.nodes[i].id == id {
            proof {
                lemma_find_node_first(objects.nodes@, id, i as int);
            }
            return Some(objects.nodes[i]);
        }
        i = i + 1;
    }
    proof {
        lemma_find_node_none(objects.nodes@, id);
    }
    None
}

/// Looks a way up by its identifier and gives its position in the store.
pub fn get_way_index(objects: &OsmObjects, id: i64) -> (r: Option<usize>)
    ensures
        match r {
            Some(i) => find_way_index(objects.ways@, id) == Some(i as int),
            None => find_way_index(objects.ways@, id) is None,
        },
{
    let mut i: usize = 0;
    while i < objects.ways.len()
        invariant
            i <= objects.ways.len(),
            forall|j: int| 0 <= j < i ==> objects.ways@[j].id != id,
        decreases objects.ways.len() - i,
    {
        if objects.ways[i].id == id {
            proof {
                lemma_find_way_first(objects.ways@, id, i as int);
            }
            return Some(i);
        }
        i = i + 1;
    }
    proof {
        lemma_find_way_none(objects.ways@, id);
    }
    None
}

proof fn lemma_find_way_first(ways: Seq<Way>, id: i64, k: int)
    requires
        0 <= k < ways.len(),
        ways[k].id == id,
        forall|j: int| 0 <= j < k ==> ways[j].id != id,
    ensures
        find_way_index(ways, id) == Some(k),
    decreases ways.len(),
{
    if k > 0 {
        lemma_find_way_first(ways.drop_first(), id, k - 1);
    }
}

proof fn lemma_find_way_none(ways: Seq<Way>, id: i64)
    requires
        forall|j: int| 0 <= j < ways.len() ==> ways[j].id != id,
    ensures
        find_way_index(ways, id) is None,
    decreases ways.len(),
{
    if ways.len() > 0 {
        lemma_find_way_none(ways.drop_first(), id);
    }
}

/// The node that places a way: among the way's nodes from position `k` on,
/// the first one present in the store.
pub open spec fn node_from(ids: Seq<i64>, nodes: Seq<Node>, k: int) -> Option<Node>
    decreases ids.len() - k,
{
    if k < 0 || k >= ids.len() {
        None
    } else {
        match find_node(nodes, ids[k]) {
            Some(n) => Some(n),
            None => node_from(ids, nodes, k + 1),
        }
    }
}

/// The node that places a way on the map: the first node present in the
/// store from the middle of the way (position len/2) on, so that a street
/// is not placed at an end near a region's boundary.
pub fn middle_node(way: &Way, objects: &OsmObjects) -> (r: Option<Node>)
    ensures
        r == node_from(way.nodes@, objects.nodes@, (way.nodes.len() / 2) as int),
{
    let mut k: usize = way.nodes.len() / 2;
    while k < way.nodes.len()
        invariant
            k <= way.nodes.len(),
            node_from(way.nodes@, objects.nodes@, k as int) == node_from(
                way.nodes@,
                objects.nodes@,
                (way.nodes.len() / 2) as int,
            ),
        decreases way.nodes.len() - k,
    {
        match get_node(objects, way.nodes[k]) {
            Some(n) => {
                return Some(n);
            },
            None => {},
        }
        k = k + 1;
    }
    None
}

/// The number of the kind of an object: 0 for a node, 1 for a way, 2 for a relation.
pub open spec fn kind_number(id: OsmId) -> u8 {
    match id {
        OsmId::Node(_) => 0,
        OsmId::Way(_) => 1,
        OsmId::Relation(_) => 2,
    }
}

/// The number of the kind of an object (see `kind_number`).
pub fn obj_kind(id: OsmId) -> (r: u8)
    ensures
        r == kind_number(id),
{
    match id {
        OsmId::Node(_) => 0,
        OsmId::Way(_) => 1,
        OsmId::Relation(_) => 2,
    }
}

} // verus!
