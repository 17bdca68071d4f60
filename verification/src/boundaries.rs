//! Reconstruction of the outline of an administrative boundary from the
//! ways that its relation lists as `outer` or `enclave` members.
use vstd::prelude::*;
use crate::osm::{find_node, find_way_index, get_node, get_way_index, Node, OsmId, OsmObjects, Ref, Relation};
use crate::text::string_eq_str;

verus! {

/// A vector of node lists seen as a sequence of node sequences.
pub open spec fn deep_parts(v: Seq<Vec<Node>>) -> Seq<Seq<Node>> {
    v.map_values(|p: Vec<Node>| p@)
}

/// The nodes of a way that are present in the store, in the order of the way.
pub open spec fn way_node_list(ids: Seq<i64>, nodes: Seq<Node>) -> Seq<Node>
    decreases ids.len(),
{
    if ids.len() == 0 {
        seq![]
    } else {
        let prev = way_node_list(ids.drop_last(), nodes);
        match find_node(nodes, ids.last()) {
            Some(n) => prev.push(n),
            None => prev,
        }
    }
}

/// Whether a member role takes part in the outline.
pub open spec fn is_boundary_role(role: Seq<char>) -> bool {
    role == "outer"@ || role == "enclave"@
}

/// The part of the outline that a relation member contributes: the present
/// nodes of the way it names, when the role is a boundary role, the way is
/// known and at least two of its nodes are present.
pub open spec fn part_of_ref(r: Ref, objects: OsmObjects) -> Option<Seq<Node>> {
    if is_boundary_role(r.role@) {
        match r.member {
            OsmId::Way(id) => match find_way_index(objects.ways@, id) {
                Some(i) => {
                    let ns = way_node_list(objects.ways@[i].nodes@, objects.nodes@);
                    if ns.len() > 1 {
                        Some(ns)
                    } else {
                        None
                    }
                },
                None => None,
            },
            _ => None,
        }
    } else {
        None
    }
}

/// The parts of the outline, in the order of the relation's members.
pub open spec fn boundary_parts(refs: Seq<Ref>, objects: OsmObjects) -> Seq<Seq<Node>>
    decreases refs.len(),
{
    if refs.len() == 0 {
        seq![]
    } else {
        let prev = boundary_parts(refs.drop_last(), objects);
        match part_of_ref(refs.last(), objects) {
            Some(p) => prev.push(p),
            None => prev,
        }
    }
}

pub open spec fn part_first(p: Seq<Node>) -> i64 {
    p[0].id
}

pub open spec fn part_last(p: Seq<Node>) -> i64 {
    p.last().id
}

/// One pass over the remaining parts, from position `i`: a part that starts
/// (or ends) where the ring under construction currently ends is appended to
/// the ring (reversed when it ends there) and leaves the list; the pass stops
/// as soon as the ring comes back to its first node.
/// The result is (remaining parts, current end, ring, closed).
pub open spec fn scan_parts(
    parts: Seq<Seq<Node>>,
    i: int,
    current: i64,
    first: i64,
    outer: Seq<Node>,
) -> (Seq<Seq<Node>>, i64, Seq<Node>, bool)
    decreases parts.len() - i,
{
    if i < 0 || i >= parts.len() {
        (parts, current, outer, false)
    } else if current == part_first(parts[i]) {
        let c = part_last(parts[i]);
        let o = outer + parts[i];
        let p = parts.remove(i);
        if c == first {
            (p, c, o, true)
        } else {
            scan_parts(p, i, c, first, o)
        }
    } else if current == part_last(parts[i]) {
        let c = part_first(parts[i]);
        let o = outer + parts[i].reverse();
        let p = parts.remove(i);
        if c == first {
            (p, c, o, true)
        } else {
            scan_parts(p, i, c, first, o)
        }
    } else {
        scan_parts(parts, i + 1, current, first, outer)
    }
}

/// Repeated passes, at most `tries` of them, until the ring closes.
/// The result is (remaining parts, ring, closed).
pub open spec fn try_close(
    parts: Seq<Seq<Node>>,
    current: i64,
    first: i64,
    outer: Seq<Node>,
    tries: nat,
) -> (Seq<Seq<Node>>, Seq<Node>, bool)
    decreases tries,
{
    if current == first || tries == 0 {
        (parts, outer, false)
    } else {
        let r = scan_parts(parts, 0, current, first, outer);
        if r.3 {
            (r.0, r.2, true)
        } else {
            try_close(r.0, r.1, first, r.2, (tries - 1) as nat)
        }
    }
}

pub proof fn lemma_scan_parts_len(
    parts: Seq<Seq<Node>>,
    i: int,
    current: i64,
    first: i64,
    outer: Seq<Node>,
)
    ensures
        scan_parts(parts, i, current, first, outer).0.len() <= parts.len(),
    decreases parts.len() - i,
{
    if 0 <= i < parts.len() {
        if current == part_first(parts[i]) || current == part_last(parts[i]) {
            let c = if current == part_first(parts[i]) {
                part_last(parts[i])
            } else {
                part_first(parts[i])
            };
            let o = if current == part_first(parts[i]) {
                outer + parts[i]
            } else {
                outer + parts[i].reverse()
            };
            lemma_scan_parts_len(parts.remove(i), i, c, first, o);
        } else {
            lemma_scan_parts_len(parts, i + 1, current, first, outer);
        }
    }
}

pub proof fn lemma_try_close_len(
    parts: Seq<Seq<Node>>,
    current: i64,
    first: i64,
    outer: Seq<Node>,
    tries: nat,
)
    ensures
        try_close(parts, current, first, outer, tries).0.len() <= parts.len(),
    decreases tries,
{
    if current != first && tries != 0 {
        let r = scan_parts(parts, 0, current, first, outer);
        lemma_scan_parts_len(parts, 0, current, first, outer);
        if !r.3 {
            lemma_try_close_len(r.0, r.1, first, r.2, (tries - 1) as nat);
        }
    }
}

/// The closed rings assembled from the parts: the first remaining part starts
/// a ring, which is grown by as many passes as there were other parts; a ring
/// that closes is kept, one that does not is dropped, and the parts it used
/// are gone either way.
pub open spec fn assemble_rings(parts: Seq<Seq<Node>>) -> Seq<Seq<Node>>
    decreases parts.len(),
{
    if parts.len() == 0 {
        seq![]
    } else {
        let fp = parts[0];
        let rest = parts.drop_first();
        let r = try_close(rest, part_last(fp), part_first(fp), fp, rest.len());
        proof {
            lemma_try_close_len(rest, part_last(fp), part_first(fp), fp, rest.len());
        }
        (if r.2 {
            seq![r.1]
        } else {
            seq![]
        }) + assemble_rings(r.0)
    }
}

/// A ring under construction: it starts at node `first` and currently ends at node `current`.
pub open spec fn chain_ok(outer: Seq<Node>, first: i64, current: i64) -> bool {
    outer.len() >= 2 && outer[0].id == first && outer.last().id == current
}

proof fn lemma_scan_chain(parts: Seq<Seq<Node>>, i: int, current: i64, first: i64, outer: Seq<Node>)
    requires
        parts_wf(parts),
        chain_ok(outer, first, current),
    ensures
        ({
            let r = scan_parts(parts, i, current, first, outer);
            &&& parts_wf(r.0)
            &&& chain_ok(r.2, first, r.1)
            &&& r.3 ==> r.1 == first
        }),
    decreases parts.len() - i,
{
    if 0 <= i < parts.len() {
        let p = parts[i];
        assert(p.len() >= 2);
        let rest = parts.remove(i);
        assert forall|k: int| 0 <= k < rest.len() implies #[trigger] rest[k].len() >= 2 by {
            if k < i {
                assert(rest[k] == parts[k]);
            } else {
                assert(rest[k] == parts[k + 1]);
            }
        }
        if current == part_first(p) {
            let o = outer + p;
            assert(o.last() == p.last());
            assert(o[0] == outer[0]);
            if part_last(p) != first {
                lemma_scan_chain(rest, i, part_last(p), first, o);
            }
        } else if current == part_last(p) {
            let o = outer + p.reverse();
            assert(o.last() == p.reverse().last());
            assert(p.reverse().last() == p[0]);
            assert(o[0] == outer[0]);
            if part_first(p) != first {
                lemma_scan_chain(rest, i, part_first(p), first, o);
            }
        } else {
            lemma_scan_chain(parts, i + 1, current, first, outer);
        }
    }
}

proof fn lemma_try_close_chain(
    parts: Seq<Seq<Node>>,
    current: i64,
    first: i64,
    outer: Seq<Node>,
    tries: nat,
)
    requires
        parts_wf(parts),
        chain_ok(outer, first, current),
    ensures
        ({
            let r = try_close(parts, current, first, outer, tries);
            &&& parts_wf(r.0)
            &&& r.2 ==> chain_ok(r.1, first, first)
        }),
    decreases tries,
{
    if current != first && tries != 0 {
        lemma_scan_chain(parts, 0, current, first, outer);
        let r = scan_parts(parts, 0, current, first, outer);
        if !r.3 {
            lemma_try_close_chain(r.0, r.1, first, r.2, (tries - 1) as nat);
        }
    }
}

/// Every ring that the assembly keeps is closed: it has at least two nodes
/// and its last node is its first node.
pub proof fn lemma_rings_are_closed(parts: Seq<Seq<Node>>)
    requires
        parts_wf(parts),
    ensures
        forall|k: int|
            0 <= k < assemble_rings(parts).len() ==> {
                let ring = #[trigger] assemble_rings(parts)[k];
                ring.len() >= 2 && ring[0].id == ring.last().id
            },
    decreases parts.len(),
{
    if parts.len() > 0 {
        let fp = parts[0];
        let rest = parts.drop_first();
        assert(parts_wf(rest)) by {
            assert forall|k: int| 0 <= k < rest.len() implies #[trigger] rest[k].len() >= 2 by {
                assert(rest[k] == parts[k + 1]);
            }
        }
        assert(fp.len() >= 2);
        let r = try_close(rest, part_last(fp), part_first(fp), fp, rest.len());
        lemma_try_close_chain(rest, part_last(fp), part_first(fp), fp, rest.len());
        lemma_try_close_len(rest, part_last(fp), part_first(fp), fp, rest.len());
        lemma_rings_are_closed(r.0);
        let head: Seq<Seq<Node>> = if r.2 { seq![r.1] } else { seq![] };
        assert(assemble_rings(parts) == head + assemble_rings(r.0));
        assert forall|k: int| 0 <= k < assemble_rings(parts).len() implies {
            let ring = #[trigger] assemble_rings(parts)[k];
            ring.len() >= 2 && ring[0].id == ring.last().id
        } by {
            if k < head.len() {
                assert(assemble_rings(parts)[k] == r.1);
            } else {
                assert(assemble_rings(parts)[k] == assemble_rings(r.0)[k - head.len()]);
            }
        }
    }
}

/// How many ends of the part lie at node `v`: 2 for a part that starts
/// and ends there.
pub open spec fn part_ends_at(p: Seq<Node>, v: i64) -> nat {
    (if part_first(p) == v { 1nat } else { 0nat }) + (if part_last(p) == v { 1nat } else { 0nat })
}

/// How many part ends lie at node `v`, over all the parts.
pub open spec fn ends_at(parts: Seq<Seq<Node>>, v: i64) -> nat
    decreases parts.len(),
{
    if parts.len() == 0 {
        0
    } else {
        ends_at(parts.drop_last(), v) + part_ends_at(parts.last(), v)
    }
}

/// Every node is an end of an even number of parts: the parts can be
/// chained end to end, each in either direction, into rings that come back
/// to their first node.
pub open spec fn ends_paired(parts: Seq<Seq<Node>>) -> bool {
    forall|v: i64| #[trigger] ends_at(parts, v) % 2 == 0
}

/// A part whose last node is not its first.
pub open spec fn part_is_open(p: Seq<Node>) -> bool {
    part_first(p) != part_last(p)
}

proof fn lemma_ends_at_remove(parts: Seq<Seq<Node>>, i: int, v: i64)
    requires
        0 <= i < parts.len(),
    ensures
        ends_at(parts.remove(i), v) + part_ends_at(parts[i], v) == ends_at(parts, v),
    decreases parts.len(),
{
    if i == parts.len() - 1 {
        assert(parts.remove(i) =~= parts.drop_last());
    } else {
        lemma_ends_at_remove(parts.drop_last(), i, v);
        assert(parts.remove(i).drop_last() =~= parts.drop_last().remove(i));
        assert(parts.remove(i).last() == parts.last());
        assert(parts.drop_last()[i] == parts[i]);
    }
}

proof fn lemma_ends_at_touch(parts: Seq<Seq<Node>>, v: i64)
    requires
        ends_at(parts, v) > 0,
    ensures
        exists|k: int| 0 <= k < parts.len() && part_ends_at(#[trigger] parts[k], v) > 0,
    decreases parts.len(),
{
    if part_ends_at(parts.last(), v) > 0 {
        assert(part_ends_at(parts[parts.len() - 1], v) > 0);
    } else {
        lemma_ends_at_touch(parts.drop_last(), v);
        let k = choose|k: int| 0 <= k < parts.drop_last().len() && part_ends_at(#[trigger] parts.drop_last()[k], v) > 0;
        assert(parts[k] == parts.drop_last()[k]);
    }
}

/// A ring under way from node `first` to node `current`, with `parts`
/// left: `current` and `first` are ends of an odd number of the parts left,
/// every other node of an even number.
pub open spec fn walk_inv(parts: Seq<Seq<Node>>, current: i64, first: i64) -> bool {
    &&& current != first
    &&& forall|v: i64| #[trigger] ends_at(parts, v) % 2 == (if v == current || v == first { 1nat } else { 0nat })
}

/// Removing a part that starts or ends at `current` moves the walk to the
/// part's other end; the invariant holds there unless the ring is closed.
proof fn lemma_walk_step(parts: Seq<Seq<Node>>, i: int, current: i64, first: i64, next: i64)
    requires
        0 <= i < parts.len(),
        walk_inv(parts, current, first),
        (part_first(parts[i]) == current && part_last(parts[i]) == next) || (part_last(parts[i]) == current
            && part_first(parts[i]) == next),
        next != first,
    ensures
        walk_inv(parts.remove(i), next, first),
{
    let r = parts.remove(i);
    assert forall|v: i64| #[trigger] ends_at(r, v) % 2 == (if v == next || v == first { 1nat } else { 0nat }) by {
        lemma_ends_at_remove(parts, i, v);
        assert(ends_at(parts, v) % 2 == (if v == current || v == first { 1nat } else { 0nat }));
    }
}

/// One pass either closes the ring or keeps the invariant; and when a part
/// left at or after position `i` touches the end of the ring, the pass
/// closes the ring or uses up at least one part.
proof fn lemma_scan_walk(parts: Seq<Seq<Node>>, i: int, current: i64, first: i64, outer: Seq<Node>)
    requires
        0 <= i,
        walk_inv(parts, current, first),
    ensures
        ({
            let r = scan_parts(parts, i, current, first, outer);
            &&& r.3 || walk_inv(r.0, r.1, first)
            &&& (exists|k: int| i <= k < parts.len() && part_ends_at(#[trigger] parts[k], current) > 0) ==> (r.3
                || r.0.len() < parts.len())
        }),
    decreases parts.len() - i,
{
    if i < parts.len() {
        let p = parts[i];
        let rest = parts.remove(i);
        if current == part_first(p) {
            let c = part_last(p);
            if c != first {
                lemma_walk_step(parts, i, current, first, c);
                lemma_scan_walk(rest, i, c, first, outer + p);
                lemma_scan_parts_len(rest, i, c, first, outer + p);
            }
        } else if current == part_last(p) {
            let c = part_first(p);
            if c != first {
                lemma_walk_step(parts, i, current, first, c);
                lemma_scan_walk(rest, i, c, first, outer + p.reverse());
                lemma_scan_parts_len(rest, i, c, first, outer + p.reverse());
            }
        } else {
            lemma_scan_walk(parts, i + 1, current, first, outer);
            if exists|k: int| i <= k < parts.len() && part_ends_at(#[trigger] parts[k], current) > 0 {
                let k = choose|k: int| i <= k < parts.len() && part_ends_at(#[trigger] parts[k], current) > 0;
                assert(k != i);
            }
        }
    }
}

/// Passes, as many as there are parts left, close the ring.
proof fn lemma_try_close_closes(parts: Seq<Seq<Node>>, current: i64, first: i64, outer: Seq<Node>, tries: nat)
    requires
        walk_inv(parts, current, first),
        tries >= parts.len(),
    ensures
        try_close(parts, current, first, outer, tries).2,
    decreases tries,
{
    assert(ends_at(parts, current) % 2 == 1nat);
    lemma_ends_at_touch(parts, current);
    if parts.len() == 0 {
        assert(ends_at(parts, current) == 0);
    }
    let k = choose|k: int| 0 <= k < parts.len() && part_ends_at(#[trigger] parts[k], current) > 0;
    lemma_scan_walk(parts, 0, current, first, outer);
    let r = scan_parts(parts, 0, current, first, outer);
    if !r.3 {
        lemma_try_close_closes(r.0, r.1, first, r.2, (tries - 1) as nat);
    }
}

/// Rings are found whatever the order of the parts: when every node is an
/// end of an even number of parts (as when the parts chain end to end, in
/// either direction, into rings that come back to their first node) and
/// some part is not already closed on itself, the assembly keeps at least
/// one ring, and every ring it keeps is closed.
pub proof fn lemma_paired_parts_give_a_ring(parts: Seq<Seq<Node>>)
    requires
        parts_wf(parts),
        ends_paired(parts),
        exists|k: int| 0 <= k < parts.len() && part_is_open(#[trigger] parts[k]),
    ensures
        assemble_rings(parts).len() > 0,
        forall|k: int|
            0 <= k < assemble_rings(parts).len() ==> {
                let ring = #[trigger] assemble_rings(parts)[k];
                ring.len() >= 2 && ring[0].id == ring.last().id
            },
    decreases parts.len(),
{
    lemma_rings_are_closed(parts);
    let fp = parts[0];
    let rest = parts.drop_first();
    assert(rest =~= parts.remove(0));
    lemma_try_close_len(rest, part_last(fp), part_first(fp), fp, rest.len());
    let r = try_close(rest, part_last(fp), part_first(fp), fp, rest.len());
    let head: Seq<Seq<Node>> = if r.2 { seq![r.1] } else { seq![] };
    assert(assemble_rings(parts) == head + assemble_rings(r.0));
    if part_is_open(fp) {
        assert forall|v: i64| #[trigger] ends_at(rest, v) % 2 == (if v == part_last(fp) || v == part_first(fp) {
            1nat
        } else {
            0nat
        }) by {
            lemma_ends_at_remove(parts, 0, v);
            assert(ends_at(parts, v) % 2 == 0);
        }
        lemma_try_close_closes(rest, part_last(fp), part_first(fp), fp, rest.len());
    } else {
        assert(r.0 == rest);
        assert(parts_wf(rest)) by {
            assert forall|k: int| 0 <= k < rest.len() implies #[trigger] rest[k].len() >= 2 by {
                assert(rest[k] == parts[k + 1]);
            }
        }
        assert forall|v: i64| #[trigger] ends_at(rest, v) % 2 == 0 by {
            lemma_ends_at_remove(parts, 0, v);
            assert(ends_at(parts, v) % 2 == 0);
        }
        let k = choose|k: int| 0 <= k < parts.len() && part_is_open(#[trigger] parts[k]);
        assert(k != 0);
        assert(rest[k - 1] == parts[k]);
        lemma_paired_parts_give_a_ring(rest);
    }
}

/// The nodes of a way that are present in the store, in the order of the way.
pub fn get_nodes(way_nodes: &Vec<i64>, objects: &OsmObjects) -> (r: Vec<Node>)
    ensures
        r@ == way_node_list(way_nodes@, objects.nodes@),
{
    let mut r: Vec<Node> = Vec::new();
    let mut i: usize = 0;
    while i < way_nodes.len()
        invariant
            i <= way_nodes.len(),
            r@ == way_node_list(way_nodes@.take(i as int), objects.nodes@),
        decreases way_nodes.len() - i,
    {
        assert(way_nodes@.take(i + 1).drop_last() =~= way_nodes@.take(i as int));
        match get_node(objects, way_nodes[i]) {
            Some(n) => {
                r.push(n);
            },
            None => {},
        }
        i = i + 1;
    }
    assert(way_nodes@.take(way_nodes.len() as int) =~= way_nodes@);
    r
}

/// The part of the outline contributed by one relation member, if any.
fn get_part(r: &Ref, objects: &OsmObjects) -> (p: Option<Vec<Node>>)
    ensures
        match p {
            Some(v) => part_of_ref(*r, *objects) == Some(v@),
            None => part_of_ref(*r, *objects) is None,
        },
{
    if !(string_eq_str(&r.role, "outer") || string_eq_str(&r.role, "enclave")) {
        return None;
    }
    match r.member {
        OsmId::Way(id) => match get_way_index(objects, id) {
            Some(i) => {
                proof {
                    crate::osm::lemma_find_way_index_bounds(objects.ways@, id);
                }
                let ns = get_nodes(&objects.ways[i].nodes, objects);
                if ns.len() > 1 {
                    Some(ns)
                } else {
                    None
                }
            },
            None => None,
        },
        _ => None,
    }
}

/// The parts of the outline of a relation, in the order of its members.
pub fn get_boundary_parts(relation: &Relation, objects: &OsmObjects) -> (r: Vec<Vec<Node>>)
    ensures
        deep_parts(r@) == boundary_parts(relation.refs@, *objects),
{
    let mut r: Vec<Vec<Node>> = Vec::new();
    let mut i: usize = 0;
    while i < relation.refs.len()
        invariant
            i <= relation.refs.len(),
            deep_parts(r@) == boundary_parts(relation.refs@.take(i as int), *objects),
        decreases relation.refs.len() - i,
    {
        assert(relation.refs@.take(i + 1).drop_last() =~= relation.refs@.take(i as int));
        match get_part(&relation.refs[i], objects) {
            Some(p) => {
                r.push(p);
                assert(deep_parts(r@) =~= boundary_parts(relation.refs@.take(i as int), *objects).push(p@));
            },
            None => {},
        }
        i = i + 1;
    }
    assert(relation.refs@.take(relation.refs.len() as int) =~= relation.refs@);
    r
}

/// Every part has at least two nodes.
pub open spec fn parts_wf(parts: Seq<Seq<Node>>) -> bool {
    forall|k: int| 0 <= k < parts.len() ==> #[trigger] parts[k].len() >= 2
}

proof fn lemma_boundary_parts_wf(refs: Seq<Ref>, objects: OsmObjects)
    ensures
        parts_wf(boundary_parts(refs, objects)),
    decreases refs.len(),
{
    if refs.len() > 0 {
        lemma_boundary_parts_wf(refs.drop_last(), objects);
    }
}

/// The nodes of a part in reverse order.
fn reversed(p: &Vec<Node>) -> (r: Vec<Node>)
    ensures
        r@ == p@.reverse(),
{
    let mut r: Vec<Node> = Vec::new();
    let mut i: usize = p.len();
    while i > 0
        invariant
            i <= p.len(),
            r@ == p@.subrange(i as int, p.len() as int).reverse(),
        decreases i,
    {
        i = i - 1;
        r.push(p[i]);
        assert(r@ =~= p@.subrange(i as int, p.len() as int).reverse());
    }
    assert(p@.subrange(0, p.len() as int) =~= p@);
    r
}

/// One pass over the remaining parts (see `scan_parts`).
fn scan(parts: &mut Vec<Vec<Node>>, current: &mut i64, first: i64, outer: &mut Vec<Node>) -> (closed: bool)
    requires
        parts_wf(deep_parts(old(parts)@)),
        *old(current) != first,
    ensures
        (deep_parts(final(parts)@), *final(current), final(outer)@, closed) == scan_parts(
            deep_parts(old(parts)@),
            0,
            *old(current),
            first,
            old(outer)@,
        ),
        parts_wf(deep_parts(final(parts)@)),
{
    let ghost target = scan_parts(deep_parts(parts@), 0, *current, first, outer@);
    let mut i: usize = 0;
    let mut closed = false;
    while i < parts.len() && !closed
        invariant
            parts_wf(deep_parts(parts@)),
            !closed ==> scan_parts(deep_parts(parts@), i as int, *current, first, outer@) == target,
            !closed ==> *current != first,
            closed ==> target == (deep_parts(parts@), *current, outer@, true),
            i <= parts.len(),
        decreases parts.len() - i, (if closed { 0int } else { 1int }),
    {
        let ghost dp = deep_parts(parts@);
        assert(dp[i as int] == parts@[i as int]@);
        assert(dp[i as int].len() >= 2);
        let pf = parts[i][0].id;
        let pl = parts[i][parts[i].len() - 1].id;
        let ghost cur0 = *current;
        let ghost out0 = outer@;
        if *current == pf {
            *current = pl;
            let mut p = parts.remove(i);
            assert(deep_parts(parts@) =~= dp.remove(i as int));
            outer.append(&mut p);
            assert(outer@ == out0 + dp[i as int]);
            if *current == first {
                closed = true;
            }
        } else if *current == pl {
            *current = pf;
            let p0 = parts.remove(i);
            assert(deep_parts(parts@) =~= dp.remove(i as int));
            let mut p = reversed(&p0);
            outer.append(&mut p);
            assert(outer@ == out0 + dp[i as int].reverse());
            if *current == first {
                closed = true;
            }
        } else {
            i = i + 1;
        }
    }
    closed
}

/// The closed rings made from the parts of a relation's outline.
fn assemble(parts: Vec<Vec<Node>>) -> (rings: Vec<Vec<Node>>)
    requires
        parts_wf(deep_parts(parts@)),
    ensures
        deep_parts(rings@) == assemble_rings(deep_parts(parts@)),
{
    let ghost whole = deep_parts(parts@);
    let mut parts = parts;
    let mut rings: Vec<Vec<Node>> = Vec::new();
    while parts.len() > 0
        invariant
            parts_wf(deep_parts(parts@)),
            deep_parts(rings@) + assemble_rings(deep_parts(parts@)) == assemble_rings(whole),
        decreases parts.len(),
    {
        let ghost dp = deep_parts(parts@);
        let first_part = parts.remove(0);
        assert(deep_parts(parts@) =~= dp.drop_first());
        assert(first_part@ == dp[0]);
        let first = first_part[0].id;
        let mut current = first_part[first_part.len() - 1].id;
        let mut outer = first_part;
        let max_try = parts.len();
        let mut nb_try: usize = 0;
        let mut closed = false;
        let ghost r0 = try_close(dp.drop_first(), current, first, outer@, max_try as nat);
        while current != first && nb_try < max_try
            invariant_except_break
                !closed,
                try_close(deep_parts(parts@), current, first, outer@, (max_try - nb_try) as nat) == r0,
            invariant
                parts_wf(deep_parts(parts@)),
                nb_try <= max_try,
            ensures
                r0 == (deep_parts(parts@), outer@, closed),
            decreases max_try - nb_try,
        {
            let c = scan(&mut parts, &mut current, first, &mut outer);
            nb_try = nb_try + 1;
            if c {
                closed = true;
                break;
            }
        }
        proof {
            lemma_try_close_len(dp.drop_first(), dp[0].last().id, first, dp[0], max_try as nat);
        }
        if closed {
            let ghost before = deep_parts(rings@);
            rings.push(outer);
            assert(deep_parts(rings@) =~= before.push(r0.1));
        }
    }
    assert(deep_parts(rings@) + seq![] =~= deep_parts(rings@));
    rings
}

/// The outline of a relation as closed rings of nodes, or `None` when no
/// ring closes.
pub fn build_boundary(relation: &Relation, objects: &OsmObjects) -> (r: Option<Vec<Vec<Node>>>)
    ensures
        match r {
            Some(rings) => deep_parts(rings@) == assemble_rings(
                boundary_parts(relation.refs@, *objects),
            ) && rings.len() > 0,
            None => assemble_rings(boundary_parts(relation.refs@, *objects)).len() == 0,
        },
        r matches Some(rings) ==> forall|k: int|
            0 <= k < rings.len() ==> {
                let ring = #[trigger] rings@[k]@;
                ring.len() >= 2 && ring[0].id == ring.last().id
            },
        ({
            let parts = boundary_parts(relation.refs@, *objects);
            ends_paired(parts) && (exists|k: int| 0 <= k < parts.len() && part_is_open(#[trigger] parts[k]))
                ==> r is Some
        }),
{
    let parts = get_boundary_parts(relation, objects);
    proof {
        let bp = boundary_parts(relation.refs@, *objects);
        lemma_boundary_parts_wf(relation.refs@, *objects);
        lemma_rings_are_closed(bp);
        if ends_paired(bp) && (exists|k: int| 0 <= k < bp.len() && part_is_open(#[trigger] bp[k])) {
            lemma_paired_parts_give_a_ring(bp);
        }
    }
    let rings = assemble(parts);
    assert forall|k: int| 0 <= k < rings.len() implies {
        let ring = #[trigger] rings@[k]@;
        ring.len() >= 2 && ring[0].id == ring.last().id
    } by {
        assert(deep_parts(rings@)[k] == rings@[k]@);
    }
    if rings.len() == 0 {
        None
    } else {
        Some(rings)
    }
}

} // verus!
