//! The choice of the administrative regions of a point: among the regions
//! whose bounding box holds the point, taken by increasing zone type, a region
//! is kept when it contains the point and no region of its zone type has been
//! kept yet, or when it is an ancestor of a region already kept.
//! The geometric tests are made outside; this module decides.
use vstd::prelude::*;
use crate::places::{zone_rank, zone_type_rank, ZoneType};
use crate::text::strs;

verus! {

/// What the selection reads of a region registered in the finder.
#[derive(Debug, Clone, Copy, PartialEq, Eq, Structural)]
pub struct AdminLink {
    pub zone_type: Option<ZoneType>,
    /// The key of the parent region, when the region has one.
    pub parent: Option<usize>,
}

/// The registered regions, by key: a key is a position, and a key that names
/// no registered region holds `None`.
#[derive(Debug, Clone)]
pub struct AdminHierarchy {
    pub links: Vec<Option<AdminLink>>,
}

/// A region whose bounding box holds the point, with the outcome of the
/// exact test of its boundary against the point.
#[derive(Debug, Clone, Copy, PartialEq, Eq, Structural)]
pub struct Candidate {
    pub key: usize,
    pub zone_type: Option<ZoneType>,
    pub parent: Option<usize>,
    pub contains: bool,
}

/// Every parent key names a position of the hierarchy.
pub open spec fn hierarchy_wf(h: Seq<Option<AdminLink>>) -> bool {
    forall|k: int|
        0 <= k < h.len() ==> (#[trigger] h[k] matches Some(l) ==> (l.parent matches Some(p) ==> p
            < h.len()))
}

/// Every key that the candidates hold names a position of the hierarchy.
pub open spec fn candidates_wf(cands: Seq<Candidate>, n: nat) -> bool {
    forall|i: int|
        0 <= i < cands.len() ==> {
            &&& (#[trigger] cands[i]).key < n
            &&& (cands[i].parent matches Some(p) ==> p < n)
        }
}

/// The positions `j < upto` of the candidates of rank `r`, in increasing order.
pub open spec fn rank_indices(cands: Seq<Candidate>, r: nat, upto: int) -> Seq<int>
    decreases upto,
{
    if upto <= 0 {
        seq![]
    } else {
        let prev = rank_indices(cands, r, upto - 1);
        if zone_rank(cands[upto - 1].zone_type) == r {
            prev.push(upto - 1)
        } else {
            prev
        }
    }
}

/// The positions of the candidates of rank below `r`, by rank, and in their
/// original order within a rank.
pub open spec fn ranked_upto(cands: Seq<Candidate>, r: nat) -> Seq<int>
    decreases r,
{
    if r == 0 {
        seq![]
    } else {
        ranked_upto(cands, (r - 1) as nat) + rank_indices(cands, (r - 1) as nat, cands.len() as int)
    }
}

/// The candidates' positions in the order of a stable sort by zone type.
pub open spec fn stable_rank_order(cands: Seq<Candidate>) -> Seq<int> {
    ranked_upto(cands, 9)
}

/// The number of keys not yet visited.
pub open spec fn count_false(t: Seq<bool>) -> nat
    decreases t.len(),
{
    if t.len() == 0 {
        0
    } else {
        count_false(t.drop_last()) + (if t.last() {
            0nat
        } else {
            1nat
        })
    }
}

pub proof fn lemma_count_false_update(t: Seq<bool>, k: int)
    requires
        0 <= k < t.len(),
        !t[k],
    ensures
        count_false(t.update(k, true)) + 1 == count_false(t),
    decreases t.len(),
{
    let u = t.update(k, true);
    if k < t.len() - 1 {
        assert(u.drop_last() =~= t.drop_last().update(k, true));
        lemma_count_false_update(t.drop_last(), k);
    } else {
        assert(u.drop_last() =~= t.drop_last());
    }
}

/// The zone types already taken, with the type of region `k` added.
pub open spec fn add_zone(zts: Seq<bool>, z: Option<ZoneType>) -> Seq<bool> {
    match z {
        Some(_) => zts.update(zone_rank(z) as int, true),
        None => zts,
    }
}

/// The walk up the ancestors of a region kept: each ancestor's zone type is
/// taken and its key marked visited; the walk stops at a key already visited
/// or when there is no further parent. Result: (visited keys, zone types taken).
pub open spec fn walk(
    h: Seq<Option<AdminLink>>,
    pid: Option<usize>,
    tested: Seq<bool>,
    zts: Seq<bool>,
) -> (Seq<bool>, Seq<bool>)
    decreases count_false(tested),
{
    match pid {
        None => (tested, zts),
        Some(k) => {
            if k >= h.len() || tested.len() != h.len() {
                (tested, zts)
            } else {
                let zts1 = match h[k as int] {
                    Some(l) => add_zone(zts, l.zone_type),
                    None => zts,
                };
                if tested[k as int] {
                    (tested, zts1)
                } else {
                    let next = match h[k as int] {
                        Some(l) => l.parent,
                        None => None,
                    };
                    proof {
                        lemma_count_false_update(tested, k as int);
                    }
                    walk(h, next, tested.update(k as int, true), zts1)
                }
            }
        },
    }
}

/// The candidates kept, visiting them in the order `order` from position `i`.
pub open spec fn select(
    h: Seq<Option<AdminLink>>,
    cands: Seq<Candidate>,
    order: Seq<int>,
    i: int,
    tested: Seq<bool>,
    zts: Seq<bool>,
) -> Seq<int>
    decreases order.len() - i,
{
    if i < 0 || i >= order.len() {
        seq![]
    } else {
        let j = order[i];
        let c = cands[j];
        if tested[c.key as int] {
            seq![j] + select(h, cands, order, i + 1, tested, zts)
        } else if c.zone_type is Some && zts[zone_rank(c.zone_type) as int] {
            select(h, cands, order, i + 1, tested, zts)
        } else if c.contains {
            let w = walk(h, c.parent, tested, add_zone(zts, c.zone_type));
            seq![j] + select(h, cands, order, i + 1, w.0, w.1)
        } else {
            select(h, cands, order, i + 1, tested, zts)
        }
    }
}

/// The positions of the candidates kept, in the order they are returned.
pub open spec fn admins_of_point(h: Seq<Option<AdminLink>>, cands: Seq<Candidate>) -> Seq<int> {
    select(
        h,
        cands,
        stable_rank_order(cands),
        0,
        Seq::new(h.len(), |k: int| false),
        Seq::new(9, |k: int| false),
    )
}

/// A vector of positions seen as a sequence of integers.
pub open spec fn as_ints(v: Seq<usize>) -> Seq<int> {
    v.map_values(|x: usize| x as int)
}

proof fn lemma_as_ints_push(v: Seq<usize>, x: usize)
    ensures
        as_ints(v.push(x)) == as_ints(v).push(x as int),
{
    assert(as_ints(v.push(x)) =~= as_ints(v).push(x as int));
}

/// Every position of `rank_indices` is a position of the candidates, and
/// its candidate has rank `r`.
proof fn lemma_rank_indices(cands: Seq<Candidate>, r: nat, upto: int)
    requires
        upto <= cands.len(),
    ensures
        forall|k: int|
            0 <= k < rank_indices(cands, r, upto).len() ==> {
                let j = #[trigger] rank_indices(cands, r, upto)[k];
                &&& 0 <= j < upto
                &&& zone_rank(cands[j].zone_type) == r
            },
        forall|a: int, b: int|
            0 <= a < b < rank_indices(cands, r, upto).len() ==> rank_indices(cands, r, upto)[a]
                < rank_indices(cands, r, upto)[b],
    decreases upto,
{
    if upto > 0 {
        lemma_rank_indices(cands, r, upto - 1);
    }
}

/// Every position of `ranked_upto(cands, r)` is a position of the candidates
/// whose rank is below `r`, and the ranks never decrease along it.
pub proof fn lemma_ranked_upto(cands: Seq<Candidate>, r: nat)
    ensures
        forall|k: int|
            0 <= k < ranked_upto(cands, r).len() ==> {
                let j = #[trigger] ranked_upto(cands, r)[k];
                &&& 0 <= j < cands.len()
                &&& zone_rank(cands[j].zone_type) < r
            },
        forall|a: int, b: int|
            0 <= a < b < ranked_upto(cands, r).len() ==> zone_rank(
                cands[ranked_upto(cands, r)[a]].zone_type,
            ) <= zone_rank(cands[ranked_upto(cands, r)[b]].zone_type),
    decreases r,
{
    if r > 0 {
        let prev = ranked_upto(cands, (r - 1) as nat);
        let ri = rank_indices(cands, (r - 1) as nat, cands.len() as int);
        lemma_ranked_upto(cands, (r - 1) as nat);
        lemma_rank_indices(cands, (r - 1) as nat, cands.len() as int);
        let all = ranked_upto(cands, r);
        assert(all == prev + ri);
        assert forall|k: int| 0 <= k < all.len() implies {
            let j = #[trigger] all[k];
            &&& 0 <= j < cands.len()
            &&& zone_rank(cands[j].zone_type) < r
        } by {
            if k < prev.len() {
                assert(all[k] == prev[k]);
            } else {
                assert(all[k] == ri[k - prev.len()]);
            }
        }
        assert forall|a: int, b: int| 0 <= a < b < all.len() implies zone_rank(
            cands[all[a]].zone_type,
        ) <= zone_rank(cands[all[b]].zone_type) by {
            if b < prev.len() {
                assert(all[a] == prev[a]);
                assert(all[b] == prev[b]);
            } else if a < prev.len() {
                assert(all[a] == prev[a]);
                assert(all[b] == ri[b - prev.len()]);
            } else {
                assert(all[a] == ri[a - prev.len()]);
                assert(all[b] == ri[b - prev.len()]);
            }
        }
    }
}

/// The positions of the candidates in the order of a stable sort by zone type.
pub fn rank_order(cands: &Vec<Candidate>) -> (order: Vec<usize>)
    ensures
        as_ints(order@) == stable_rank_order(cands@),
{
    let mut order: Vec<usize> = Vec::new();
    let mut r: usize = 0;
    while r < 9
        invariant
            r <= 9,
            as_ints(order@) == ranked_upto(cands@, r as nat),
        decreases 9 - r,
    {
        let mut j: usize = 0;
        while j < cands.len()
            invariant
                r < 9,
                j <= cands.len(),
                as_ints(order@) == ranked_upto(cands@, r as nat) + rank_indices(
                    cands@,
                    r as nat,
                    j as int,
                ),
            decreases cands.len() - j,
        {
            if zone_type_rank(cands[j].zone_type) == r {
                proof {
                    lemma_as_ints_push(order@, j);
                }
                order.push(j);
            }
            j = j + 1;
        }
        assert(ranked_upto(cands@, (r + 1) as nat) == ranked_upto(cands@, r as nat)
            + rank_indices(cands@, r as nat, cands@.len() as int));
        r = r + 1;
    }
    order
}

/// The walk up the ancestors of a region kept (see `walk`).
fn walk_up(
    h: &AdminHierarchy,
    pid: Option<usize>,
    tested: &mut Vec<bool>,
    zts: &mut Vec<bool>,
)
    requires
        hierarchy_wf(h.links@),
        old(tested).len() == h.links.len(),
        old(zts).len() == 9,
    ensures
        (final(tested)@, final(zts)@) == walk(h.links@, pid, old(tested)@, old(zts)@),
        final(tested).len() == h.links.len(),
        final(zts).len() == 9,
{
    let ghost target = walk(h.links@, pid, tested@, zts@);
    let mut p = pid;
    loop
        invariant
            hierarchy_wf(h.links@),
            tested.len() == h.links.len(),
            zts.len() == 9,
            walk(h.links@, p, tested@, zts@) == target,
        ensures
            (tested@, zts@) == target,
        decreases count_false(tested@),
    {
        match p {
            None => {
                break;
            },
            Some(k) => {
                if k >= h.links.len() {
                    break;
                }
                let link = h.links[k];
                match link {
                    Some(l) => match l.zone_type {
                        Some(_) => {
                            let zr = zone_type_rank(l.zone_type);
                            zts.set(zr, true);
                        },
                        None => {},
                    },
                    None => {},
                }
                if tested[k] {
                    break;
                }
                proof {
                    lemma_count_false_update(tested@, k as int);
                }
                tested.set(k, true);
                p = match link {
                    Some(l) => l.parent,
                    None => None,
                };
            },
        }
    }
}

/// The positions of the candidates kept for a point, in the order in which
/// they are kept: candidates are taken by increasing zone type; one whose
/// region was already reached as an ancestor is kept; otherwise one whose zone
/// type is already taken is skipped; otherwise one whose boundary contains
/// the point is kept, its zone type and those of its ancestors are taken, and
/// its ancestors are marked reached.
pub fn admins_for_point(h: &AdminHierarchy, cands: &Vec<Candidate>) -> (kept: Vec<usize>)
    requires
        hierarchy_wf(h.links@),
        candidates_wf(cands@, h.links.len() as nat),
    ensures
        as_ints(kept@) == admins_of_point(h.links@, cands@),
{
    let order = rank_order(cands);
    proof {
        lemma_ranked_upto(cands@, 9);
    }
    let n = h.links.len();
    let mut tested: Vec<bool> = Vec::new();
    let mut k: usize = 0;
    while k < n
        invariant
            k <= n,
            tested@ == Seq::new(k as nat, |x: int| false),
        decreases n - k,
    {
        tested.push(false);
        k = k + 1;
        assert(tested@ =~= Seq::new(k as nat, |x: int| false));
    }
    let mut zts: Vec<bool> = vec![false, false, false, false, false, false, false, false, false];
    assert(zts@ =~= Seq::new(9, |x: int| false));
    let ghost target = admins_of_point(h.links@, cands@);
    let ghost ord = stable_rank_order(cands@);
    let mut kept: Vec<usize> = Vec::new();
    let mut i: usize = 0;
    while i < order.len()
        invariant
            hierarchy_wf(h.links@),
            candidates_wf(cands@, h.links.len() as nat),
            as_ints(order@) == ord,
            ord == stable_rank_order(cands@),
            forall|m: int| 0 <= m < ord.len() ==> 0 <= #[trigger] ord[m] < cands.len(),
            tested.len() == h.links.len(),
            zts.len() == 9,
            i <= order.len(),
            target == as_ints(kept@) + select(h.links@, cands@, ord, i as int, tested@, zts@),
        decreases order.len() - i,
    {
        let j = order[i];
        assert(ord[i as int] == j as int);
        assert(0 <= ord[i as int] < cands.len());
        let c = cands[j];
        assert(c.key < h.links.len());
        let ghost rest = select(h.links@, cands@, ord, i + 1, tested@, zts@);
        if tested[c.key] {
            proof {
                lemma_as_ints_push(kept@, j);
                assert(as_ints(kept@.push(j)) + rest =~= as_ints(kept@) + (seq![j as int] + rest));
            }
            kept.push(j);
        } else if c.zone_type.is_some() && zts[zone_type_rank(c.zone_type)] {
        } else if c.contains {
            match c.zone_type {
                Some(_) => {
                    let zr = zone_type_rank(c.zone_type);
                    zts.set(zr, true);
                },
                None => {},
            }
            let ghost z1 = zts@;
            walk_up(h, c.parent, &mut tested, &mut zts);
            let ghost rest2 = select(h.links@, cands@, ord, i + 1, tested@, zts@);
            proof {
                lemma_as_ints_push(kept@, j);
                assert(as_ints(kept@.push(j)) + rest2 =~= as_ints(kept@) + (seq![j as int] + rest2));
            }
            kept.push(j);
        }
        i = i + 1;
    }
    assert(as_ints(kept@) + seq![] =~= as_ints(kept@));
    kept
}

/// The ranks of the candidates never decrease along `ord`.
pub open spec fn rank_sorted(cands: Seq<Candidate>, ord: Seq<int>) -> bool {
    forall|a: int, b: int|
        0 <= a <= b < ord.len() ==> zone_rank(cands[ord[a]].zone_type) <= zone_rank(
            cands[ord[b]].zone_type,
        )
}

proof fn lemma_select_sorted(
    h: Seq<Option<AdminLink>>,
    cands: Seq<Candidate>,
    ord: Seq<int>,
    i: int,
    tested: Seq<bool>,
    zts: Seq<bool>,
)
    requires
        0 <= i,
        rank_sorted(cands, ord),
    ensures
        ({
            let res = select(h, cands, ord, i, tested, zts);
            &&& forall|k: int|
                0 <= k < res.len() ==> exists|m: int| i <= m < ord.len() && #[trigger] res[k] == ord[m]
            &&& forall|a: int, b: int|
                0 <= a < b < res.len() ==> zone_rank(cands[res[a]].zone_type) <= zone_rank(
                    cands[res[b]].zone_type,
                )
        }),
    decreases ord.len() - i,
{
    if i < ord.len() {
        let j = ord[i];
        let c = cands[j];
        let res = select(h, cands, ord, i, tested, zts);
        if tested[c.key as int] {
            lemma_select_sorted(h, cands, ord, i + 1, tested, zts);
            let rest = select(h, cands, ord, i + 1, tested, zts);
            assert(res == seq![j] + rest);
            assert forall|k: int| 0 <= k < res.len() implies exists|m: int|
                i <= m < ord.len() && #[trigger] res[k] == ord[m] by {
                if k == 0 {
                    assert(res[0] == ord[i]);
                } else {
                    assert(res[k] == rest[k - 1]);
                }
            }
            assert forall|a: int, b: int| 0 <= a < b < res.len() implies zone_rank(
                cands[res[a]].zone_type,
            ) <= zone_rank(cands[res[b]].zone_type) by {
                assert(res[b] == rest[b - 1]);
                let mb = choose|m: int| i + 1 <= m < ord.len() && #[trigger] rest[b - 1] == ord[m];
                if a == 0 {
                    assert(res[0] == ord[i]);
                } else {
                    assert(res[a] == rest[a - 1]);
                }
            }
        } else if c.zone_type is Some && zts[zone_rank(c.zone_type) as int] {
            lemma_select_sorted(h, cands, ord, i + 1, tested, zts);
        } else if c.contains {
            let w = walk(h, c.parent, tested, add_zone(zts, c.zone_type));
            lemma_select_sorted(h, cands, ord, i + 1, w.0, w.1);
            let rest = select(h, cands, ord, i + 1, w.0, w.1);
            assert(res == seq![j] + rest);
            assert forall|k: int| 0 <= k < res.len() implies exists|m: int|
                i <= m < ord.len() && #[trigger] res[k] == ord[m] by {
                if k == 0 {
                    assert(res[0] == ord[i]);
                } else {
                    assert(res[k] == rest[k - 1]);
                }
            }
            assert forall|a: int, b: int| 0 <= a < b < res.len() implies zone_rank(
                cands[res[a]].zone_type,
            ) <= zone_rank(cands[res[b]].zone_type) by {
                assert(res[b] == rest[b - 1]);
                let mb = choose|m: int| i + 1 <= m < ord.len() && #[trigger] rest[b - 1] == ord[m];
                if a == 0 {
                    assert(res[0] == ord[i]);
                } else {
                    assert(res[a] == rest[a - 1]);
                }
            }
        } else {
            lemma_select_sorted(h, cands, ord, i + 1, tested, zts);
        }
    }
}

/// The regions of a point come out by increasing zone type (regions without
/// a zone type first), and each is one of the candidates.
pub proof fn lemma_admins_by_increasing_zone_type(h: Seq<Option<AdminLink>>, cands: Seq<Candidate>)
    ensures
        ({
            let res = admins_of_point(h, cands);
            &&& forall|k: int| 0 <= k < res.len() ==> 0 <= #[trigger] res[k] < cands.len()
            &&& forall|a: int, b: int|
                0 <= a < b < res.len() ==> zone_rank(cands[res[a]].zone_type) <= zone_rank(
                    cands[res[b]].zone_type,
                )
        }),
{
    let ord = stable_rank_order(cands);
    lemma_ranked_upto(cands, 9);
    let t = Seq::new(h.len(), |k: int| false);
    let z = Seq::new(9, |k: int| false);
    lemma_select_sorted(h, cands, ord, 0, t, z);
    let res = admins_of_point(h, cands);
    assert forall|k: int| 0 <= k < res.len() implies 0 <= #[trigger] res[k] < cands.len() by {
        let m = choose|m: int| 0 <= m < ord.len() && #[trigger] res[k] == ord[m];
    }
}

/// The parent key of the region of key `k`, if it is registered and has one.
pub open spec fn parent_of(h: Seq<Option<AdminLink>>, k: int) -> Option<usize> {
    if 0 <= k < h.len() {
        match h[k] {
            Some(l) => l.parent,
            None => None,
        }
    } else {
        None
    }
}

/// Key `k` is met within `steps` parent links, starting from the key `from`.
pub open spec fn reaches(h: Seq<Option<AdminLink>>, from: Option<usize>, k: int, steps: nat) -> bool
    decreases steps,
{
    match from {
        None => false,
        Some(p) => p == k || (steps > 0 && reaches(h, parent_of(h, p as int), k, (steps - 1) as nat)),
    }
}

/// Key `k` is met by following parent links from the key `from`.
pub open spec fn is_ancestor(h: Seq<Option<AdminLink>>, from: Option<usize>, k: int) -> bool {
    exists|s: nat| #[trigger] reaches(h, from, k, s)
}

proof fn lemma_walk_reaches(
    h: Seq<Option<AdminLink>>,
    pid: Option<usize>,
    tested: Seq<bool>,
    zts: Seq<bool>,
)
    requires
        tested.len() == h.len(),
    ensures
        walk(h, pid, tested, zts).0.len() == tested.len(),
        forall|k: int|
            0 <= k < tested.len() && #[trigger] walk(h, pid, tested, zts).0[k] && !tested[k]
                ==> is_ancestor(h, pid, k),
    decreases count_false(tested),
{
    match pid {
        None => {},
        Some(k0) => {
            if k0 < h.len() {
                let zts1 = match h[k0 as int] {
                    Some(l) => add_zone(zts, l.zone_type),
                    None => zts,
                };
                if !tested[k0 as int] {
                    let next = parent_of(h, k0 as int);
                    let t1 = tested.update(k0 as int, true);
                    lemma_count_false_update(tested, k0 as int);
                    lemma_walk_reaches(h, next, t1, zts1);
                    let w = walk(h, pid, tested, zts);
                    assert(w == walk(h, next, t1, zts1));
                    assert forall|k: int|
                        0 <= k < tested.len() && #[trigger] w.0[k] && !tested[k] implies is_ancestor(
                        h,
                        pid,
                        k,
                    ) by {
                        if k == k0 {
                            assert(reaches(h, pid, k, 0));
                        } else {
                            assert(!t1[k]);
                            let s = choose|s: nat| #[trigger] reaches(h, next, k, s);
                            assert(reaches(h, pid, k, s + 1));
                        }
                    }
                }
            }
        },
    }
}

/// Every key marked reached is an ancestor of one of the regions kept so far.
pub open spec fn reached_from(
    h: Seq<Option<AdminLink>>,
    cands: Seq<Candidate>,
    tested: Seq<bool>,
    prev: Seq<int>,
) -> bool {
    forall|k: int|
        0 <= k < tested.len() && #[trigger] tested[k] ==> exists|b: int|
            0 <= b < prev.len() && #[trigger] is_ancestor(h, cands[prev[b]].parent, k)
}

/// Each region kept contains the point or is an ancestor of a region kept before it.
pub open spec fn kept_soundly(h: Seq<Option<AdminLink>>, cands: Seq<Candidate>, res: Seq<int>) -> bool {
    forall|a: int|
        0 <= a < res.len() ==> (#[trigger] cands[res[a]]).contains || exists|b: int|
            0 <= b < a && #[trigger] is_ancestor(h, cands[res[b]].parent, cands[res[a]].key as int)
}

proof fn lemma_select_sound(
    h: Seq<Option<AdminLink>>,
    cands: Seq<Candidate>,
    ord: Seq<int>,
    i: int,
    tested: Seq<bool>,
    zts: Seq<bool>,
    prev: Seq<int>,
)
    requires
        0 <= i,
        tested.len() == h.len(),
        candidates_wf(cands, h.len()),
        forall|m: int| 0 <= m < ord.len() ==> 0 <= #[trigger] ord[m] < cands.len(),
        reached_from(h, cands, tested, prev),
        kept_soundly(h, cands, prev),
    ensures
        kept_soundly(h, cands, prev + select(h, cands, ord, i, tested, zts)),
    decreases ord.len() - i,
{
    if i >= ord.len() {
        assert(prev + select(h, cands, ord, i, tested, zts) =~= prev);
    } else {
        let j = ord[i];
        let c = cands[j];
        assert(0 <= j < cands.len());
        assert(c.key < h.len());
        let p1 = prev.push(j);
        if tested[c.key as int] {
            let rest = select(h, cands, ord, i + 1, tested, zts);
            assert(prev + select(h, cands, ord, i, tested, zts) =~= p1 + rest);
            assert(reached_from(h, cands, tested, p1)) by {
                assert forall|k: int| 0 <= k < tested.len() && #[trigger] tested[k] implies exists|b: int|
                    0 <= b < p1.len() && #[trigger] is_ancestor(h, cands[p1[b]].parent, k) by {
                    let b = choose|b: int| 0 <= b < prev.len() && #[trigger] is_ancestor(h, cands[prev[b]].parent, k);
                    assert(p1[b] == prev[b]);
                }
            }
            assert(kept_soundly(h, cands, p1)) by {
                assert forall|a: int| 0 <= a < p1.len() implies (#[trigger] cands[p1[a]]).contains
                    || exists|b: int| 0 <= b < a && #[trigger] is_ancestor(h, cands[p1[b]].parent, cands[p1[a]].key as int) by {
                    if a < prev.len() {
                        assert(p1[a] == prev[a]);
                        if !cands[prev[a]].contains {
                            let b = choose|b: int| 0 <= b < a && #[trigger] is_ancestor(h, cands[prev[b]].parent, cands[prev[a]].key as int);
                            assert(p1[b] == prev[b]);
                        }
                    } else {
                        let k = c.key as int;
                        assert(tested[k]);
                        let b = choose|b: int| 0 <= b < prev.len() && #[trigger] is_ancestor(h, cands[prev[b]].parent, k);
                        assert(p1[b] == prev[b]);
                        assert(p1[a] == j);
                    }
                }
            }
            lemma_select_sound(h, cands, ord, i + 1, tested, zts, p1);
        } else if c.zone_type is Some && zts[zone_rank(c.zone_type) as int] {
            lemma_select_sound(h, cands, ord, i + 1, tested, zts, prev);
        } else if c.contains {
            let w = walk(h, c.parent, tested, add_zone(zts, c.zone_type));
            lemma_walk_reaches(h, c.parent, tested, add_zone(zts, c.zone_type));
            let rest = select(h, cands, ord, i + 1, w.0, w.1);
            assert(prev + select(h, cands, ord, i, tested, zts) =~= p1 + rest);
            assert(reached_from(h, cands, w.0, p1)) by {
                assert forall|k: int| 0 <= k < w.0.len() && #[trigger] w.0[k] implies exists|b: int|
                    0 <= b < p1.len() && #[trigger] is_ancestor(h, cands[p1[b]].parent, k) by {
                    if tested[k] {
                        let b = choose|b: int| 0 <= b < prev.len() && #[trigger] is_ancestor(h, cands[prev[b]].parent, k);
                        assert(p1[b] == prev[b]);
                    } else {
                        assert(is_ancestor(h, c.parent, k));
                        assert(p1[prev.len() as int] == j);
                    }
                }
            }
            assert(kept_soundly(h, cands, p1)) by {
                assert forall|a: int| 0 <= a < p1.len() implies (#[trigger] cands[p1[a]]).contains
                    || exists|b: int| 0 <= b < a && #[trigger] is_ancestor(h, cands[p1[b]].parent, cands[p1[a]].key as int) by {
                    if a < prev.len() {
                        assert(p1[a] == prev[a]);
                        if !cands[prev[a]].contains {
                            let b = choose|b: int| 0 <= b < a && #[trigger] is_ancestor(h, cands[prev[b]].parent, cands[prev[a]].key as int);
                            assert(p1[b] == prev[b]);
                        }
                    } else {
                        assert(p1[a] == j);
                    }
                }
            }
            lemma_select_sound(h, cands, ord, i + 1, w.0, w.1, p1);
        } else {
            lemma_select_sound(h, cands, ord, i + 1, tested, zts, prev);
        }
    }
}

/// A region is kept for a point only when its boundary contains the point or
/// when it is an ancestor of a region kept before it.
pub proof fn lemma_admins_contain_point_or_are_ancestors(
    h: Seq<Option<AdminLink>>,
    cands: Seq<Candidate>,
)
    requires
        candidates_wf(cands, h.len()),
    ensures
        kept_soundly(h, cands, admins_of_point(h, cands)),
{
    let ord = stable_rank_order(cands);
    lemma_ranked_upto(cands, 9);
    let t = Seq::new(h.len(), |k: int| false);
    let z = Seq::new(9, |k: int| false);
    let empty: Seq<int> = seq![];
    lemma_select_sound(h, cands, ord, 0, t, z, empty);
    assert(empty + admins_of_point(h, cands) =~= admins_of_point(h, cands));
}

/// The registered ancestors met going up from the key `p`, within `fuel`
/// steps: the walk stops at a key that names no registered region.
pub open spec fn registered_chain(h: Seq<Option<AdminLink>>, p: Option<usize>, fuel: nat) -> Seq<int>
    decreases fuel,
{
    match p {
        None => seq![],
        Some(k) => if k < h.len() && h[k as int] is Some && fuel > 0 {
            seq![k as int] + registered_chain(h, h[k as int]->0.parent, (fuel - 1) as nat)
        } else {
            seq![]
        },
    }
}

/// Going up the registered ancestors from `p` ends within `fuel` steps (it
/// does not run round a cycle).
pub open spec fn chain_terminates(h: Seq<Option<AdminLink>>, p: Option<usize>, fuel: nat) -> bool
    decreases fuel,
{
    match p {
        None => true,
        Some(k) => if k < h.len() && h[k as int] is Some {
            fuel > 0 && chain_terminates(h, h[k as int]->0.parent, (fuel - 1) as nat)
        } else {
            true
        },
    }
}

/// The keys of a chain marked visited.
pub open spec fn mark_all(visited: Seq<bool>, ch: Seq<int>) -> Seq<bool>
    decreases ch.len(),
{
    if ch.len() == 0 {
        visited
    } else {
        mark_all(visited, ch.drop_last()).update(ch.last(), true)
    }
}

/// The candidates that meet the caller's condition, in order.
pub open spec fn kept_candidates(cands: Seq<Candidate>, keep: Seq<bool>) -> Seq<Candidate>
    decreases cands.len(),
{
    if cands.len() == 0 {
        seq![]
    } else {
        let p = kept_candidates(cands.drop_last(), keep);
        if keep[cands.len() - 1] {
            p.push(cands.last())
        } else {
            p
        }
    }
}

/// The hierarchies kept, visiting the candidates in the order `order` from
/// position `i`: a candidate not yet visited as an ancestor whose region
/// holds the point gives its key followed by its registered ancestors,
/// which are then visited.
pub open spec fn select_if(
    h: Seq<Option<AdminLink>>,
    cands: Seq<Candidate>,
    order: Seq<int>,
    i: int,
    visited: Seq<bool>,
) -> Seq<Seq<int>>
    decreases order.len() - i,
{
    if i < 0 || i >= order.len() {
        seq![]
    } else {
        let c = cands[order[i]];
        if !visited[c.key as int] && c.contains {
            let ch = registered_chain(h, c.parent, (h.len() + 1) as nat);
            seq![seq![c.key as int] + ch] + select_if(h, cands, order, i + 1, mark_all(visited, ch))
        } else {
            select_if(h, cands, order, i + 1, visited)
        }
    }
}

/// The hierarchies of the regions of a point among the candidates that meet
/// the caller's condition, by increasing zone type.
pub open spec fn admin_hierarchies(h: Seq<Option<AdminLink>>, cands: Seq<Candidate>, keep: Seq<bool>) -> Seq<Seq<int>> {
    let kc = kept_candidates(cands, keep);
    select_if(h, kc, stable_rank_order(kc), 0, Seq::new(h.len(), |k: int| false))
}

proof fn lemma_kept_candidates_wf(cands: Seq<Candidate>, keep: Seq<bool>, n: nat)
    requires
        candidates_wf(cands, n),
        keep.len() == cands.len(),
    ensures
        candidates_wf(kept_candidates(cands, keep), n),
    decreases cands.len(),
{
    if cands.len() > 0 {
        assert(candidates_wf(cands.drop_last(), n)) by {
            assert forall|i: int| 0 <= i < cands.drop_last().len() implies {
                &&& (#[trigger] cands.drop_last()[i]).key < n
                &&& (cands.drop_last()[i].parent matches Some(p) ==> p < n)
            } by {
                assert(cands.drop_last()[i] == cands[i]);
            }
        }
        lemma_kept_candidates_wf(cands.drop_last(), keep.subrange(0, keep.len() - 1), n);
        assert(kept_candidates(cands.drop_last(), keep.subrange(0, keep.len() - 1)) == kept_candidates(cands.drop_last(), keep)) by {
            lemma_kept_prefix(cands.drop_last(), keep.subrange(0, keep.len() - 1), keep);
        }
        let p = kept_candidates(cands.drop_last(), keep);
        if keep[cands.len() - 1] {
            assert forall|i: int| 0 <= i < p.push(cands.last()).len() implies {
                &&& (#[trigger] p.push(cands.last())[i]).key < n
                &&& (p.push(cands.last())[i].parent matches Some(q) ==> q < n)
            } by {
                if i < p.len() {
                    assert(p.push(cands.last())[i] == p[i]);
                }
            }
        }
    }
}

proof fn lemma_kept_prefix(cands: Seq<Candidate>, k1: Seq<bool>, k2: Seq<bool>)
    requires
        k1.len() >= cands.len(),
        k2.len() >= cands.len(),
        forall|i: int| 0 <= i < cands.len() ==> k1[i] == k2[i],
    ensures
        kept_candidates(cands, k1) == kept_candidates(cands, k2),
    decreases cands.len(),
{
    if cands.len() > 0 {
        lemma_kept_prefix(cands.drop_last(), k1, k2);
    }
}

/// The candidates that meet the condition.
fn filter_candidates(cands: &Vec<Candidate>, keep: &Vec<bool>) -> (r: Vec<Candidate>)
    requires
        keep.len() == cands.len(),
    ensures
        r@ == kept_candidates(cands@, keep@),
{
    let mut r: Vec<Candidate> = Vec::new();
    let mut i: usize = 0;
    while i < cands.len()
        invariant
            keep.len() == cands.len(),
            i <= cands.len(),
            r@ == kept_candidates(cands@.take(i as int), keep@),
        decreases cands.len() - i,
    {
        assert(cands@.take(i + 1).drop_last() =~= cands@.take(i as int));
        assert(cands@.take(i + 1).last() == cands@[i as int]);
        if keep[i] {
            r.push(cands[i]);
        }
        i = i + 1;
    }
    assert(cands@.take(cands.len() as int) =~= cands@);
    r
}

/// Follows the registered ancestors from `p`, marking them visited.
fn walk_registered(h: &AdminHierarchy, p: Option<usize>, visited: &mut Vec<bool>) -> (ch: Vec<usize>)
    requires
        hierarchy_wf(h.links@),
        old(visited).len() == h.links.len(),
        p matches Some(k) ==> k < h.links.len(),
        chain_terminates(h.links@, p, (h.links.len() + 1) as nat),
    ensures
        as_ints(ch@) == registered_chain(h.links@, p, (h.links.len() + 1) as nat),
        final(visited)@ == mark_all(old(visited)@, as_ints(ch@)),
        final(visited).len() == h.links.len(),
{
    let ghost target = registered_chain(h.links@, p, (h.links.len() + 1) as nat);
    let ghost v0 = visited@;
    let mut ch: Vec<usize> = Vec::new();
    let mut cur = p;
    let ghost mut fuel: nat = (h.links.len() + 1) as nat;
    loop
        invariant_except_break
            chain_terminates(h.links@, cur, fuel),
            target == as_ints(ch@) + registered_chain(h.links@, cur, fuel),
        invariant
            hierarchy_wf(h.links@),
            cur matches Some(k) ==> k < h.links.len(),
            visited.len() == h.links.len(),
            visited@ == mark_all(v0, as_ints(ch@)),
            forall|t: int| 0 <= t < ch.len() ==> #[trigger] ch@[t] < h.links.len(),
        ensures
            target == as_ints(ch@),
        decreases fuel,
    {
        match cur {
            None => {
                assert(as_ints(ch@) + seq![] =~= as_ints(ch@));
                break;
            },
            Some(k) => {
                match h.links[k] {
                    Some(l) => {
                        let ghost before = as_ints(ch@);
                        proof {
                            lemma_as_ints_push(ch@, k);
                        }
                        ch.push(k);
                        visited.set(k, true);
                        assert(as_ints(ch@).drop_last() =~= before);
                        assert(target =~= as_ints(ch@) + registered_chain(h.links@, l.parent, (fuel - 1) as nat));
                        cur = l.parent;
                        proof {
                            fuel = (fuel - 1) as nat;
                        }
                    },
                    None => {
                        assert(as_ints(ch@) + seq![] =~= as_ints(ch@));
                        break;
                    },
                }
            },
        }
    }
    ch
}

/// The hierarchies of the regions of a point among the candidates that meet
/// the caller's condition (`keep`, aligned with the candidates), taken by
/// increasing zone type: each candidate whose region holds the point and
/// that is not already an ancestor in a hierarchy given before gives its
/// key followed by the keys of its registered ancestors.
pub fn admins_if_for_point(h: &AdminHierarchy, cands: &Vec<Candidate>, keep: &Vec<bool>) -> (r: Vec<Vec<usize>>)
    requires
        hierarchy_wf(h.links@),
        candidates_wf(cands@, h.links.len() as nat),
        keep.len() == cands.len(),
        forall|i: int|
            0 <= i < cands.len() ==> chain_terminates(
                h.links@,
                #[trigger] cands@[i].parent,
                (h.links.len() + 1) as nat,
            ),
    ensures
        r@.map_values(|v: Vec<usize>| as_ints(v@)) == admin_hierarchies(h.links@, cands@, keep@),
{
    let kc = filter_candidates(cands, keep);
    proof {
        lemma_kept_candidates_wf(cands@, keep@, h.links.len() as nat);
        lemma_kept_terminates(cands@, keep@, h.links@);
    }
    let order = rank_order(&kc);
    proof {
        lemma_ranked_upto(kc@, 9);
    }
    let n = h.links.len();
    let mut visited: Vec<bool> = Vec::new();
    let mut k: usize = 0;
    while k < n
        invariant
            k <= n,
            visited@ == Seq::new(k as nat, |x: int| false),
        decreases n - k,
    {
        visited.push(false);
        k = k + 1;
        assert(visited@ =~= Seq::new(k as nat, |x: int| false));
    }
    let ghost ord = stable_rank_order(kc@);
    let ghost target = admin_hierarchies(h.links@, cands@, keep@);
    let mut res: Vec<Vec<usize>> = Vec::new();
    let mut i: usize = 0;
    while i < order.len()
        invariant
            hierarchy_wf(h.links@),
            candidates_wf(kc@, h.links.len() as nat),
            forall|j: int| 0 <= j < kc.len() ==> chain_terminates(h.links@, #[trigger] kc@[j].parent, (h.links.len() + 1) as nat),
            as_ints(order@) == ord,
            forall|m: int| 0 <= m < ord.len() ==> 0 <= #[trigger] ord[m] < kc.len(),
            visited.len() == h.links.len(),
            i <= order.len(),
            target == res@.map_values(|v: Vec<usize>| as_ints(v@)) + select_if(h.links@, kc@, ord, i as int, visited@),
        decreases order.len() - i,
    {
        let j = order[i];
        assert(ord[i as int] == j as int);
        assert(0 <= ord[i as int] < kc.len());
        let c = kc[j];
        if !visited[c.key] && c.contains {
            let ghost v_before = visited@;
            let ch = walk_registered(h, c.parent, &mut visited);
            let mut hierarchy: Vec<usize> = vec![c.key];
            let mut t: usize = 0;
            while t < ch.len()
                invariant
                    t <= ch.len(),
                    as_ints(hierarchy@) == seq![c.key as int] + as_ints(ch@).take(t as int),
                decreases ch.len() - t,
            {
                proof {
                    lemma_as_ints_push(hierarchy@, ch@[t as int]);
                }
                hierarchy.push(ch[t]);
                t = t + 1;
                assert(as_ints(hierarchy@) =~= seq![c.key as int] + as_ints(ch@).take(t as int));
            }
            assert(as_ints(ch@).take(ch.len() as int) =~= as_ints(ch@));
            let ghost prev = res@.map_values(|v: Vec<usize>| as_ints(v@));
            let ghost rest = select_if(h.links@, kc@, ord, i + 1, visited@);
            res.push(hierarchy);
            assert(res@.map_values(|v: Vec<usize>| as_ints(v@)) =~= prev.push(as_ints(hierarchy@)));
            assert(prev.push(as_ints(hierarchy@)) + rest =~= prev + (seq![as_ints(hierarchy@)] + rest));
        }
        i = i + 1;
    }
    assert(res@.map_values(|v: Vec<usize>| as_ints(v@)) + seq![] =~= res@.map_values(|v: Vec<usize>| as_ints(v@)));
    res
}

proof fn lemma_kept_terminates(cands: Seq<Candidate>, keep: Seq<bool>, h: Seq<Option<AdminLink>>)
    requires
        keep.len() == cands.len(),
        forall|i: int| 0 <= i < cands.len() ==> chain_terminates(h, #[trigger] cands[i].parent, (h.len() + 1) as nat),
    ensures
        forall|j: int|
            0 <= j < kept_candidates(cands, keep).len() ==> chain_terminates(
                h,
                #[trigger] kept_candidates(cands, keep)[j].parent,
                (h.len() + 1) as nat,
            ),
    decreases cands.len(),
{
    if cands.len() > 0 {
        let k1 = keep.subrange(0, keep.len() - 1);
        assert forall|i: int| 0 <= i < cands.drop_last().len() implies chain_terminates(h, #[trigger] cands.drop_last()[i].parent, (h.len() + 1) as nat) by {
            assert(cands.drop_last()[i] == cands[i]);
        }
        lemma_kept_terminates(cands.drop_last(), k1, h);
        lemma_kept_prefix(cands.drop_last(), k1, keep);
        let p = kept_candidates(cands.drop_last(), keep);
        if keep[cands.len() - 1] {
            assert forall|j: int| 0 <= j < p.push(cands.last()).len() implies chain_terminates(h, #[trigger] p.push(cands.last())[j].parent, (h.len() + 1) as nat) by {
                if j < p.len() {
                    assert(p.push(cands.last())[j] == p[j]);
                }
            }
        }
    }
}

/// Each candidate names a registered region of its own zone type.
pub open spec fn candidates_registered(h: Seq<Option<AdminLink>>, cands: Seq<Candidate>) -> bool {
    forall|i: int|
        0 <= i < cands.len() ==> (h[(#[trigger] cands[i]).key as int] matches Some(l) && l.zone_type
            == cands[i].zone_type)
}

/// When two regions kept for a point have the same zone type, the later one
/// was kept as an ancestor of a region kept before it, not for holding the
/// point itself.
pub open spec fn one_per_zone_type(h: Seq<Option<AdminLink>>, cands: Seq<Candidate>, res: Seq<int>) -> bool {
    forall|a: int, b: int|
        0 <= a < b < res.len() && (#[trigger] cands[res[a]]).zone_type is Some && cands[res[a]].zone_type
            == (#[trigger] cands[res[b]]).zone_type ==> exists|c: int|
            0 <= c < b && #[trigger] is_ancestor(h, cands[res[c]].parent, cands[res[b]].key as int)
}

/// The zone type of every region reached is taken.
pub open spec fn zones_marked(h: Seq<Option<AdminLink>>, tested: Seq<bool>, zts: Seq<bool>) -> bool {
    forall|k: int|
        0 <= k < tested.len() && #[trigger] tested[k] ==> (h[k] matches Some(l) ==> (l.zone_type is Some
            ==> zts[zone_rank(l.zone_type) as int]))
}

/// The zone type of every region kept so far is taken.
pub open spec fn prev_marked(cands: Seq<Candidate>, prev: Seq<int>, zts: Seq<bool>) -> bool {
    forall|a: int|
        0 <= a < prev.len() ==> ((#[trigger] cands[prev[a]]).zone_type is Some ==> zts[zone_rank(
            cands[prev[a]].zone_type,
        ) as int])
}

proof fn lemma_walk_zones(h: Seq<Option<AdminLink>>, pid: Option<usize>, tested: Seq<bool>, zts: Seq<bool>)
    requires
        tested.len() == h.len(),
        zts.len() == 9,
        zones_marked(h, tested, zts),
    ensures
        ({
            let w = walk(h, pid, tested, zts);
            &&& w.1.len() == 9
            &&& forall|r: int| 0 <= r < 9 && #[trigger] zts[r] ==> w.1[r]
            &&& forall|k: int| 0 <= k < tested.len() && #[trigger] tested[k] ==> w.0[k]
            &&& zones_marked(h, w.0, w.1)
        }),
    decreases count_false(tested),
{
    match pid {
        None => {},
        Some(k0) => {
            if k0 < h.len() {
                let zts1 = match h[k0 as int] {
                    Some(l) => add_zone(zts, l.zone_type),
                    None => zts,
                };
                assert(zones_marked(h, tested, zts1)) by {
                    assert forall|k: int| 0 <= k < tested.len() && #[trigger] tested[k] implies (h[k] matches Some(l) ==> (l.zone_type is Some ==> zts1[zone_rank(l.zone_type) as int])) by {
                        if h[k] is Some && h[k]->0.zone_type is Some {
                            assert(zts[zone_rank(h[k]->0.zone_type) as int]);
                        }
                    }
                }
                if !tested[k0 as int] {
                    let next = parent_of(h, k0 as int);
                    let t1 = tested.update(k0 as int, true);
                    lemma_count_false_update(tested, k0 as int);
                    assert(zones_marked(h, t1, zts1)) by {
                        assert forall|k: int| 0 <= k < t1.len() && #[trigger] t1[k] implies (h[k] matches Some(l) ==> (l.zone_type is Some ==> zts1[zone_rank(l.zone_type) as int])) by {
                            if k != k0 {
                                assert(tested[k]);
                            }
                        }
                    }
                    lemma_walk_zones(h, next, t1, zts1);
                    assert(walk(h, pid, tested, zts) == walk(h, next, t1, zts1));
                    let w = walk(h, next, t1, zts1);
                    assert forall|k: int| 0 <= k < tested.len() && #[trigger] tested[k] implies w.0[k] by {
                        assert(t1[k]);
                    }
                    assert forall|r: int| 0 <= r < 9 && #[trigger] zts[r] implies w.1[r] by {
                        assert(zts1[r]);
                    }
                }
            }
        },
    }
}

proof fn lemma_select_one_per_type(
    h: Seq<Option<AdminLink>>,
    cands: Seq<Candidate>,
    ord: Seq<int>,
    i: int,
    tested: Seq<bool>,
    zts: Seq<bool>,
    prev: Seq<int>,
)
    requires
        0 <= i,
        tested.len() == h.len(),
        zts.len() == 9,
        candidates_wf(cands, h.len()),
        candidates_registered(h, cands),
        forall|m: int| 0 <= m < ord.len() ==> 0 <= #[trigger] ord[m] < cands.len(),
        reached_from(h, cands, tested, prev),
        zones_marked(h, tested, zts),
        prev_marked(cands, prev, zts),
        forall|a: int| 0 <= a < prev.len() ==> 0 <= #[trigger] prev[a] < cands.len(),
        one_per_zone_type(h, cands, prev),
    ensures
        one_per_zone_type(h, cands, prev + select(h, cands, ord, i, tested, zts)),
    decreases ord.len() - i,
{
    if i >= ord.len() {
        assert(prev + select(h, cands, ord, i, tested, zts) =~= prev);
    } else {
        let j = ord[i];
        let c = cands[j];
        assert(0 <= j < cands.len());
        assert(c.key < h.len());
        let p1 = prev.push(j);
        assert(forall|a: int| 0 <= a < p1.len() ==> 0 <= #[trigger] p1[a] < cands.len());
        if tested[c.key as int] {
            let rest = select(h, cands, ord, i + 1, tested, zts);
            assert(prev + select(h, cands, ord, i, tested, zts) =~= p1 + rest);
            assert(reached_from(h, cands, tested, p1)) by {
                assert forall|k: int| 0 <= k < tested.len() && #[trigger] tested[k] implies exists|b: int|
                    0 <= b < p1.len() && #[trigger] is_ancestor(h, cands[p1[b]].parent, k) by {
                    let b = choose|b: int| 0 <= b < prev.len() && #[trigger] is_ancestor(h, cands[prev[b]].parent, k);
                    assert(p1[b] == prev[b]);
                }
            }
            assert(prev_marked(cands, p1, zts)) by {
                assert forall|a: int| 0 <= a < p1.len() implies ((#[trigger] cands[p1[a]]).zone_type is Some ==> zts[zone_rank(cands[p1[a]].zone_type) as int]) by {
                    if a < prev.len() {
                        assert(p1[a] == prev[a]);
                    } else {
                        assert(p1[a] == j);
                        assert(h[c.key as int] matches Some(l) && l.zone_type == c.zone_type);
                    }
                }
            }
            assert(one_per_zone_type(h, cands, p1)) by {
                assert forall|a: int, b: int|
                    0 <= a < b < p1.len() && (#[trigger] cands[p1[a]]).zone_type is Some && cands[p1[a]].zone_type
                        == (#[trigger] cands[p1[b]]).zone_type implies exists|x: int|
                        0 <= x < b && #[trigger] is_ancestor(h, cands[p1[x]].parent, cands[p1[b]].key as int) by {
                    if b < prev.len() {
                        assert(p1[a] == prev[a] && p1[b] == prev[b]);
                        let x = choose|x: int| 0 <= x < b && #[trigger] is_ancestor(h, cands[prev[x]].parent, cands[prev[b]].key as int);
                        assert(p1[x] == prev[x]);
                    } else {
                        assert(p1[b] == j);
                        let k = c.key as int;
                        let x = choose|x: int| 0 <= x < prev.len() && #[trigger] is_ancestor(h, cands[prev[x]].parent, k);
                        assert(p1[x] == prev[x]);
                    }
                }
            }
            lemma_select_one_per_type(h, cands, ord, i + 1, tested, zts, p1);
        } else if c.zone_type is Some && zts[zone_rank(c.zone_type) as int] {
            lemma_select_one_per_type(h, cands, ord, i + 1, tested, zts, prev);
        } else if c.contains {
            let zts1 = add_zone(zts, c.zone_type);
            let w = walk(h, c.parent, tested, zts1);
            lemma_walk_reaches(h, c.parent, tested, zts1);
            assert(zones_marked(h, tested, zts1)) by {
                assert forall|k: int| 0 <= k < tested.len() && #[trigger] tested[k] implies (h[k] matches Some(l) ==> (l.zone_type is Some ==> zts1[zone_rank(l.zone_type) as int])) by {
                    if h[k] is Some && h[k]->0.zone_type is Some {
                        assert(zts[zone_rank(h[k]->0.zone_type) as int]);
                    }
                }
            }
            lemma_walk_zones(h, c.parent, tested, zts1);
            let rest = select(h, cands, ord, i + 1, w.0, w.1);
            assert(prev + select(h, cands, ord, i, tested, zts) =~= p1 + rest);
            assert(reached_from(h, cands, w.0, p1)) by {
                assert forall|k: int| 0 <= k < w.0.len() && #[trigger] w.0[k] implies exists|b: int|
                    0 <= b < p1.len() && #[trigger] is_ancestor(h, cands[p1[b]].parent, k) by {
                    if tested[k] {
                        let b = choose|b: int| 0 <= b < prev.len() && #[trigger] is_ancestor(h, cands[prev[b]].parent, k);
                        assert(p1[b] == prev[b]);
                    } else {
                        assert(is_ancestor(h, c.parent, k));
                        assert(p1[prev.len() as int] == j);
                    }
                }
            }
            assert(prev_marked(cands, p1, w.1)) by {
                assert forall|a: int| 0 <= a < p1.len() implies ((#[trigger] cands[p1[a]]).zone_type is Some ==> w.1[zone_rank(cands[p1[a]].zone_type) as int]) by {
                    if a < prev.len() {
                        assert(p1[a] == prev[a]);
                        if cands[prev[a]].zone_type is Some {
                            assert(zts1[zone_rank(cands[prev[a]].zone_type) as int]);
                        }
                    } else {
                        assert(p1[a] == j);
                        if c.zone_type is Some {
                            assert(zts1[zone_rank(c.zone_type) as int]);
                        }
                    }
                }
            }
            assert(one_per_zone_type(h, cands, p1)) by {
                assert forall|a: int, b: int|
                    0 <= a < b < p1.len() && (#[trigger] cands[p1[a]]).zone_type is Some && cands[p1[a]].zone_type
                        == (#[trigger] cands[p1[b]]).zone_type implies exists|x: int|
                        0 <= x < b && #[trigger] is_ancestor(h, cands[p1[x]].parent, cands[p1[b]].key as int) by {
                    if b < prev.len() {
                        assert(p1[a] == prev[a] && p1[b] == prev[b]);
                        let x = choose|x: int| 0 <= x < b && #[trigger] is_ancestor(h, cands[prev[x]].parent, cands[prev[b]].key as int);
                        assert(p1[x] == prev[x]);
                    } else {
                        assert(p1[b] == j);
                        assert(p1[a] == prev[a]);
                        assert(zts[zone_rank(cands[prev[a]].zone_type) as int]);
                        assert(false);
                    }
                }
            }
            lemma_select_one_per_type(h, cands, ord, i + 1, w.0, w.1, p1);
        } else {
            lemma_select_one_per_type(h, cands, ord, i + 1, tested, zts, prev);
        }
    }
}

/// A point is given at most one region of each zone type for holding it:
/// when two regions kept have the same zone type, the later one was kept
/// as an ancestor of a region kept before it. (Candidates name registered
/// regions of their own zone type.)
pub proof fn lemma_admins_one_per_zone_type(h: Seq<Option<AdminLink>>, cands: Seq<Candidate>)
    requires
        candidates_wf(cands, h.len()),
        candidates_registered(h, cands),
    ensures
        one_per_zone_type(h, cands, admins_of_point(h, cands)),
{
    let ord = stable_rank_order(cands);
    lemma_ranked_upto(cands, 9);
    let t = Seq::new(h.len(), |k: int| false);
    let z = Seq::new(9, |k: int| false);
    let empty: Seq<int> = seq![];
    lemma_select_one_per_type(h, cands, ord, 0, t, z, empty);
    assert(empty + admins_of_point(h, cands) =~= admins_of_point(h, cands));
}

/// The regions registered for the finder: each region identifier (or
/// parent identifier) met gets a key, its position in `ids`; the hierarchy
/// holds, by key, the link of the region last registered under it.
#[derive(Debug, Clone)]
pub struct AdminRegistry {
    pub ids: Vec<String>,
    pub hierarchy: AdminHierarchy,
}

/// A registry's keys and links agree.
pub open spec fn registry_wf(r: AdminRegistry) -> bool {
    &&& r.ids.len() == r.hierarchy.links.len()
    &&& hierarchy_wf(r.hierarchy.links@)
}

/// The identifiers with `x` added at the end when it is not among them.
pub open spec fn add_key(ids: Seq<Seq<char>>, x: Seq<char>) -> Seq<Seq<char>> {
    if key_index(ids, x) is Some {
        ids
    } else {
        ids.push(x)
    }
}

/// The key of an identifier: the first position where it occurs.
pub open spec fn key_index(ids: Seq<Seq<char>>, id: Seq<char>) -> Option<int>
    decreases ids.len(),
{
    if ids.len() == 0 {
        None
    } else {
        match key_index(ids.drop_last(), id) {
            Some(i) => Some(i),
            None => if ids.last() == id {
                Some(ids.len() - 1)
            } else {
                None
            },
        }
    }
}

proof fn lemma_key_index_push(ids: Seq<Seq<char>>, x: Seq<char>, id: Seq<char>)
    ensures
        key_index(ids.push(x), id) == (match key_index(ids, id) {
            Some(i) => Some(i),
            None => if x == id {
                Some(ids.len() as int)
            } else {
                None
            },
        }),
{
    assert(ids.push(x).drop_last() =~= ids);
}

proof fn lemma_key_index_bounds(ids: Seq<Seq<char>>, id: Seq<char>)
    ensures
        key_index(ids, id) matches Some(i) ==> 0 <= i < ids.len() && ids[i] == id,
        key_index(ids, id) is None ==> !ids.contains(id),
    decreases ids.len(),
{
    if ids.len() > 0 {
        lemma_key_index_bounds(ids.drop_last(), id);
        if key_index(ids.drop_last(), id) is None && ids.last() != id {
            assert forall|k: int| 0 <= k < ids.len() implies ids[k] != id by {
                if k < ids.len() - 1 {
                    assert(ids[k] == ids.drop_last()[k]);
                }
            }
        }
    }
}

impl AdminRegistry {
    /// A registry with no region.
    pub fn new() -> (r: AdminRegistry)
        ensures
            registry_wf(r),
            r.ids.len() == 0,
    {
        AdminRegistry { ids: Vec::new(), hierarchy: AdminHierarchy { links: Vec::new() } }
    }

    /// The key of an identifier, given it when it had none.
    pub fn key_of(&mut self, id: &String) -> (k: usize)
        requires
            registry_wf(*old(self)),
        ensures
            registry_wf(*final(self)),
            strs(final(self).ids@) == (if key_index(strs(old(self).ids@), id@) is Some {
                strs(old(self).ids@)
            } else {
                strs(old(self).ids@).push(id@)
            }),
            final(self).hierarchy.links@ == (if key_index(strs(old(self).ids@), id@) is Some {
                old(self).hierarchy.links@
            } else {
                old(self).hierarchy.links@.push(None)
            }),
            key_index(strs(final(self).ids@), id@) == Some(k as int),
            k < final(self).ids.len(),
    {
        let ghost ids0 = strs(self.ids@);
        let mut i: usize = 0;
        let mut found = false;
        while i < self.ids.len() && !found
            invariant
                ids0 == strs(self.ids@),
                i <= self.ids.len(),
                found ==> i < self.ids.len() && self.ids@[i as int]@ == id@,
                forall|j: int| 0 <= j < i ==> self.ids@[j]@ != id@,
            decreases self.ids.len() - i, (if found { 0int } else { 1int }),
        {
            if self.ids[i] == *id {
                found = true;
            } else {
                i = i + 1;
            }
        }
        if found {
            proof {
                lemma_key_index_first(ids0, id@, i as int);
            }
            return i;
        }
        proof {
            lemma_key_index_bounds(ids0, id@);
            if key_index(ids0, id@) is Some {
                let j = key_index(ids0, id@)->0;
                assert(ids0[j] == self.ids@[j]@);
            }
            lemma_key_index_push(ids0, id@, id@);
            crate::text::lemma_strs_push(self.ids@, *id);
        }
        let k = self.ids.len();
        self.ids.push(id.clone());
        self.hierarchy.links.push(None);
        assert forall|x: int| 0 <= x < self.hierarchy.links@.len() implies (#[trigger] self.hierarchy.links@[x] matches Some(l) ==> (l.parent matches Some(p) ==> p < self.hierarchy.links@.len())) by {
            if x < k {
                assert(self.hierarchy.links@[x] == old(self).hierarchy.links@[x]);
            }
        }
        k
    }

    /// Registers a region: its identifier gets a key (as does its parent's),
    /// and the key's link becomes the region's zone type and parent key.
    pub fn insert(&mut self, id: &String, zone_type: Option<ZoneType>, parent_id: &Option<String>) -> (k: usize)
        requires
            registry_wf(*old(self)),
        ensures
            registry_wf(*final(self)),
            k < final(self).ids.len(),
            key_index(strs(final(self).ids@), id@) == Some(k as int),
            final(self).hierarchy.links@[k as int] matches Some(l) && l.zone_type == zone_type && (
            match parent_id {
                Some(p) => (l.parent matches Some(pk) && key_index(strs(final(self).ids@), p@) == Some(
                    pk as int,
                )),
                None => l.parent is None,
            }),
            strs(final(self).ids@) == add_key(
                match parent_id {
                    Some(p) => add_key(strs(old(self).ids@), p@),
                    None => strs(old(self).ids@),
                },
                id@,
            ),
            final(self).hierarchy.links.len() == final(self).ids.len(),
            forall|j: int|
                0 <= j < old(self).ids.len() && j != k ==> #[trigger] final(self).hierarchy.links@[j]
                    == old(self).hierarchy.links@[j],
            forall|j: int|
                old(self).ids.len() <= j < final(self).ids.len() && j != k ==> #[trigger] final(self).hierarchy.links@[j]
                    is None,
    {
        let parent = match parent_id {
            Some(p) => Some(self.key_of(p)),
            None => None,
        };
        let ghost mid = *self;
        let k = self.key_of(id);
        proof {
            if parent_id is Some {
                let p = parent_id->0;
                lemma_key_index_push(strs(mid.ids@), id@, p@);
            }
        }
        let ghost before_set = self.hierarchy.links@;
        let link = AdminLink { zone_type, parent };
        self.hierarchy.links.set(k, Some(link));
        assert forall|x: int| 0 <= x < self.hierarchy.links@.len() implies (#[trigger] self.hierarchy.links@[x] matches Some(l) ==> (l.parent matches Some(p) ==> p < self.hierarchy.links@.len())) by {
            if x != k {
                assert(self.hierarchy.links@[x] == before_set[x]);
            }
        }
        proof {
            if parent_id is Some {
                let p = parent_id->0;
                lemma_key_index_bounds(strs(self.ids@), p@);
            }
        }
        k
    }
}

proof fn lemma_key_index_first(ids: Seq<Seq<char>>, id: Seq<char>, k: int)
    requires
        0 <= k < ids.len(),
        ids[k] == id,
        forall|j: int| 0 <= j < k ==> ids[j] != id,
    ensures
        key_index(ids, id) == Some(k),
    decreases ids.len(),
{
    if k < ids.len() - 1 {
        lemma_key_index_first(ids.drop_last(), id, k);
    } else {
        lemma_key_index_bounds(ids.drop_last(), id);
        if key_index(ids.drop_last(), id) is Some {
            let j = key_index(ids.drop_last(), id)->0;
            assert(ids.drop_last()[j] == ids[j]);
        }
    }
}

} // verus!
