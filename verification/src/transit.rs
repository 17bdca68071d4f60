//! Stop areas and lines of a public transport data set (NTFS), turned into
//! stops: identifiers given their prefix, linked objects gathered, lines
//! sorted as a traveller reads them (line 3 before line 11).
use vstd::prelude::*;
use crate::places::{normalize_id, normalized_id, Comment, CommercialMode, FeedPublisher, Network, PhysicalMode};
use crate::places::copy_pairs;
use crate::stops::{new_stop, Stop};
use crate::text::{all_digits, digits_value, find_key, lookup, opt_str};
use crate::order::{lemma_insert_sorted, lex_le, seq_le, str_le};
use vstd::relations::sorted_by;

verus! {

/// A colour, as transit data give it.
#[derive(Debug, Clone, Copy, PartialEq, Eq, Structural)]
pub struct Rgb {
    pub red: u8,
    pub green: u8,
    pub blue: u8,
}

/// A line of public transport, as stops carry it.
#[derive(Debug, Clone)]
pub struct Line {
    pub id: String,
    pub name: String,
    pub code: Option<String>,
    pub color: Option<Rgb>,
    pub text_color: Option<Rgb>,
    pub commercial_mode: Option<CommercialMode>,
    pub network: Option<Network>,
    pub physical_modes: Vec<PhysicalMode>,
    /// Only used to sort the lines.
    pub sort_order: Option<u32>,
}

/// A line as the transit data hold it, with the objects it refers to:
/// each of them given by its identifier and its name.
#[derive(Debug, Clone)]
pub struct LineRecord {
    pub id: String,
    pub name: String,
    pub code: Option<String>,
    pub color: Option<Rgb>,
    pub text_color: Option<Rgb>,
    pub sort_order: Option<u32>,
    pub commercial_mode: Option<(String, String)>,
    pub network: Option<(String, String)>,
    pub physical_modes: Vec<(String, String)>,
}

/// Every run of decimal digits in the string is worth at most `u32::MAX`:
/// the numbers that human order reads in it all fit in 32 bits.
pub open spec fn digit_runs_fit(s: Seq<char>) -> bool {
    forall|i: int, j: int|
        0 <= i <= j <= s.len() && all_digits(#[trigger] s.subrange(i, j)) ==> digits_value(s.subrange(i, j))
            <= u32::MAX
}

/// The order in which `human_sort` compares two strings: -1 when `a` comes
/// first, 0 when they are equal, 1 when `b` comes first. Runs of digits
/// compare by their value, so that `item3` comes before `item200`.
pub uninterp spec fn human_order(a: Seq<char>, b: Seq<char>) -> int;

/// Calls `human_sort::compare`, as -1, 0 or 1. Its result is named by
/// `human_order`. The crate's source reads both strings in one symmetric
/// pass and falls back to the order of strings, so swapping the arguments
/// reverses the result, and only equal strings compare equal. It adds up
/// the digits of a number, from where the strings differ to the end of the
/// run, in 32 bits, which overflows on a run worth more than `u32::MAX`:
/// those inputs are left out.
#[verifier::external_body]
fn human_compare(a: &str, b: &str) -> (r: i8)
    requires
        digit_runs_fit(a@),
        digit_runs_fit(b@),
    ensures
        r == human_order(a@, b@),
        -1 <= r <= 1,
        human_order(b@, a@) == -r,
        (r == 0) == (a@ == b@),
{
    match human_sort::compare(a, b) {
        std::cmp::Ordering::Less => -1,
        std::cmp::Ordering::Equal => 0,
        std::cmp::Ordering::Greater => 1,
    }
}

/// The order of two sort orders: a line with one comes before a line
/// without, and two of them compare as numbers.
pub open spec fn sort_order_rank(a: Option<u32>, b: Option<u32>) -> int {
    match (a, b) {
        (None, Some(_)) => 1,
        (Some(_), None) => -1,
        (Some(s), Some(o)) => if s < o {
            -1
        } else if s == o {
            0
        } else {
            1
        },
        (None, None) => 0,
    }
}

/// The order of two codes: in human order when both lines have one, else
/// equal.
pub open spec fn code_rank(a: Option<Seq<char>>, b: Option<Seq<char>>) -> int {
    match (a, b) {
        (Some(x), Some(y)) => human_order(x, y),
        _ => 0,
    }
}

/// The order of lines: by sort order, then by code, then by name, codes
/// and names in human order (-1: `a` first, 0: equal, 1: `b` first).
pub open spec fn line_order(a: Line, b: Line) -> int {
    let by_sort = sort_order_rank(a.sort_order, b.sort_order);
    if by_sort != 0 {
        by_sort
    } else {
        let by_code = code_rank(opt_str(a.code), opt_str(b.code));
        if by_code != 0 {
            by_code
        } else {
            human_order(a.name@, b.name@)
        }
    }
}

/// The numbers in the strings of a line that human order reads fit in
/// 32 bits.
pub open spec fn line_strings_ok(l: Line) -> bool {
    &&& digit_runs_fit(l.name@)
    &&& (l.code matches Some(c) ==> digit_runs_fit(c@))
}

/// The same, for a line as the data hold it.
pub open spec fn record_strings_ok(r: LineRecord) -> bool {
    &&& digit_runs_fit(r.name@)
    &&& (r.code matches Some(c) ==> digit_runs_fit(c@))
}

fn compare_sort_orders(a: Option<u32>, b: Option<u32>) -> (r: i8)
    ensures
        r == sort_order_rank(a, b),
{
    match (a, b) {
        (None, Some(_)) => 1,
        (Some(_), None) => -1,
        (Some(s), Some(o)) => if s < o {
            -1
        } else if s == o {
            0
        } else {
            1
        },
        (None, None) => 0,
    }
}

/// Compares two lines (see `line_order`); the order is antisymmetric.
pub fn compare_lines(a: &Line, b: &Line) -> (r: i8)
    requires
        line_strings_ok(*a),
        line_strings_ok(*b),
    ensures
        r == line_order(*a, *b),
        line_order(*b, *a) == -r,
{
    let by_sort = compare_sort_orders(a.sort_order, b.sort_order);
    if by_sort != 0 {
        return by_sort;
    }
    let by_code: i8 = match (&a.code, &b.code) {
        (Some(x), Some(y)) => human_compare(x.as_str(), y.as_str()),
        _ => 0,
    };
    if by_code != 0 {
        return by_code;
    }
    human_compare(a.name.as_str(), b.name.as_str())
}

/// A mode or network made from an object of the data: identifier given
/// its prefix, name kept.
pub open spec fn named_made(prefix: Seq<char>, raw: (String, String), id: String, name: String) -> bool {
    id@ == normalized_id(prefix, raw.0@) && name@ == raw.1@
}

/// Commercial modes made from objects of the data, one for one.
pub open spec fn commercial_modes_made(raw: Seq<(String, String)>, v: Seq<CommercialMode>) -> bool {
    &&& v.len() == raw.len()
    &&& forall|i: int| 0 <= i < v.len() ==> named_made("commercial_mode"@, #[trigger] raw[i], v[i].id, v[i].name)
}

/// Physical modes made from objects of the data, one for one.
pub open spec fn physical_modes_made(raw: Seq<(String, String)>, v: Seq<PhysicalMode>) -> bool {
    &&& v.len() == raw.len()
    &&& forall|i: int| 0 <= i < v.len() ==> named_made("physical_mode"@, #[trigger] raw[i], v[i].id, v[i].name)
}

/// The commercial modes of objects of the data.
pub fn make_commercial_modes(raw: &Vec<(String, String)>) -> (r: Vec<CommercialMode>)
    ensures
        commercial_modes_made(raw@, r@),
{
    let mut r: Vec<CommercialMode> = Vec::new();
    let mut i: usize = 0;
    while i < raw.len()
        invariant
            i <= raw.len(),
            r.len() == i,
            forall|k: int| 0 <= k < i ==> named_made("commercial_mode"@, #[trigger] raw@[k], r@[k].id, r@[k].name),
        decreases raw.len() - i,
    {
        let id = normalize_id("commercial_mode", raw[i].0.as_str());
        proof {
            reveal_strlit("commercial_mode");
        }
        r.push(CommercialMode { id, name: raw[i].1.clone() });
        i = i + 1;
    }
    r
}

/// The physical modes of objects of the data.
pub fn make_physical_modes(raw: &Vec<(String, String)>) -> (r: Vec<PhysicalMode>)
    ensures
        physical_modes_made(raw@, r@),
{
    let mut r: Vec<PhysicalMode> = Vec::new();
    let mut i: usize = 0;
    while i < raw.len()
        invariant
            i <= raw.len(),
            r.len() == i,
            forall|k: int| 0 <= k < i ==> named_made("physical_mode"@, #[trigger] raw@[k], r@[k].id, r@[k].name),
        decreases raw.len() - i,
    {
        let id = normalize_id("physical_mode", raw[i].0.as_str());
        proof {
            reveal_strlit("physical_mode");
        }
        r.push(PhysicalMode { id, name: raw[i].1.clone() });
        i = i + 1;
    }
    r
}

/// A line made from a line of the data: identifiers given their prefixes
/// (`line`, `commercial_mode`, `network`, `physical_mode`), everything else
/// kept.
pub open spec fn line_made(rec: LineRecord, l: Line) -> bool {
    &&& l.id@ == normalized_id("line"@, rec.id@)
    &&& l.name@ == rec.name@
    &&& opt_str(l.code) == opt_str(rec.code)
    &&& l.color == rec.color
    &&& l.text_color == rec.text_color
    &&& l.sort_order == rec.sort_order
    &&& match (rec.commercial_mode, l.commercial_mode) {
        (None, None) => true,
        (Some(c), Some(m)) => named_made("commercial_mode"@, c, m.id, m.name),
        _ => false,
    }
    &&& match (rec.network, l.network) {
        (None, None) => true,
        (Some(c), Some(m)) => named_made("network"@, c, m.id, m.name),
        _ => false,
    }
    &&& physical_modes_made(rec.physical_modes@, l.physical_modes@)
}

impl Line {
    /// The line of a line of the data (see `line_made`).
    pub fn from_transit_model(rec: &LineRecord) -> (l: Line)
        ensures
            line_made(*rec, l),
    {
        let id = normalize_id("line", rec.id.as_str());
        let code = match &rec.code {
            Some(c) => Some(c.clone()),
            None => None,
        };
        let commercial_mode = match &rec.commercial_mode {
            Some(c) => Some(CommercialMode { id: normalize_id("commercial_mode", c.0.as_str()), name: c.1.clone() }),
            None => None,
        };
        let network = match &rec.network {
            Some(n) => Some(Network { id: normalize_id("network", n.0.as_str()), name: n.1.clone() }),
            None => None,
        };
        proof {
            reveal_strlit("line");
            reveal_strlit("commercial_mode");
            reveal_strlit("network");
        }
        Line {
            id,
            name: rec.name.clone(),
            code,
            color: rec.color,
            text_color: rec.text_color,
            commercial_mode,
            network,
            physical_modes: make_physical_modes(&rec.physical_modes),
            sort_order: rec.sort_order,
        }
    }
}

/// `r` holds the lines made from `records`, the line at position `k` made
/// from the record at position `p[k]`, each record once; and a line comes
/// before one made from an earlier record only when that record's line
/// comes strictly after it (the sort is stable).
pub open spec fn stably_ordered(records: Seq<LineRecord>, r: Seq<Line>, p: Seq<int>) -> bool {
    &&& p.len() == records.len()
    &&& r.len() == records.len()
    &&& forall|k: int| 0 <= k < p.len() ==> 0 <= #[trigger] p[k] < records.len()
    &&& forall|a: int, b: int| 0 <= a < b < p.len() ==> #[trigger] p[a] != #[trigger] p[b]
    &&& forall|k: int| 0 <= k < r.len() ==> line_made(records[#[trigger] p[k]], r[k])
    &&& forall|a: int, b: int|
        0 <= a < b < p.len() && #[trigger] p[a] > #[trigger] p[b] ==> line_order(r[b], r[a]) == 1
}

/// Each line comes before the next one, or equals it, in the order of lines.
pub open spec fn lines_sorted(r: Seq<Line>) -> bool {
    forall|k: int| 0 <= k && k + 1 < r.len() ==> line_order(#[trigger] r[k], r[k + 1]) != 1
}

proof fn lemma_insert_positions(n: int, p: Seq<int>, pos: int)
    requires
        p.len() == n,
        forall|k: int| 0 <= k < p.len() ==> 0 <= #[trigger] p[k] < n,
        forall|a: int, b: int| 0 <= a < b < p.len() ==> #[trigger] p[a] != #[trigger] p[b],
        0 <= pos <= n,
    ensures
        forall|k: int| 0 <= k < p.insert(pos, n).len() ==> 0 <= #[trigger] p.insert(pos, n)[k] < n + 1,
        forall|a: int, b: int|
            0 <= a < b < p.insert(pos, n).len() ==> #[trigger] p.insert(pos, n)[a] != #[trigger] p.insert(pos, n)[b],
{
    let p2 = p.insert(pos, n);
    assert forall|k: int| 0 <= k < p2.len() implies 0 <= #[trigger] p2[k] < n + 1 by {
        if k < pos {
            assert(p2[k] == p[k]);
        } else if k > pos {
            assert(p2[k] == p[k - 1]);
        }
    }
    assert forall|a: int, b: int| 0 <= a < b < p2.len() implies #[trigger] p2[a] != #[trigger] p2[b] by {
        if a != pos && b != pos {
            let a0 = if a < pos { a } else { a - 1 };
            let b0 = if b < pos { b } else { b - 1 };
            assert(p2[a] == p[a0] && p2[b] == p[b0]);
        } else if a == pos {
            assert(p2[b] == p[b - 1]);
        } else {
            assert(p2[a] == p[a]);
        }
    }
}

proof fn lemma_insert_made(recs: Seq<LineRecord>, rec: LineRecord, r: Seq<Line>, p: Seq<int>, pos: int, x: Line)
    requires
        p.len() == recs.len(),
        r.len() == recs.len(),
        forall|k: int| 0 <= k < p.len() ==> 0 <= #[trigger] p[k] < recs.len(),
        forall|k: int| 0 <= k < r.len() ==> line_made(recs[#[trigger] p[k]], r[k]),
        line_made(rec, x),
        0 <= pos <= r.len(),
    ensures
        forall|k: int| 0 <= k < r.len() + 1 ==> line_made(
            recs.push(rec)[#[trigger] p.insert(pos, recs.len() as int)[k]],
            r.insert(pos, x)[k],
        ),
{
    let n = recs.len() as int;
    let recs2 = recs.push(rec);
    let r2 = r.insert(pos, x);
    let p2 = p.insert(pos, n);
    assert forall|k: int| 0 <= k < r2.len() implies line_made(recs2[#[trigger] p2[k]], r2[k]) by {
        if k < pos {
            assert(p2[k] == p[k] && r2[k] == r[k]);
            assert(recs2[p[k]] == recs[p[k]]);
        } else if k > pos {
            assert(p2[k] == p[k - 1] && r2[k] == r[k - 1]);
            assert(recs2[p[k - 1]] == recs[p[k - 1]]);
        } else {
            assert(p2[k] == n && r2[k] == x);
        }
    }
}

proof fn lemma_insert_stable(r: Seq<Line>, p: Seq<int>, pos: int, x: Line)
    requires
        p.len() == r.len(),
        forall|k: int| 0 <= k < p.len() ==> 0 <= #[trigger] p[k] < r.len(),
        forall|a: int, b: int|
            0 <= a < b < p.len() && #[trigger] p[a] > #[trigger] p[b] ==> line_order(r[b], r[a]) == 1,
        0 <= pos <= r.len(),
        forall|k: int| pos <= k < r.len() ==> line_order(#[trigger] r[k], x) == 1,
    ensures
        forall|a: int, b: int|
            0 <= a < b < r.len() + 1 && #[trigger] p.insert(pos, r.len() as int)[a] > #[trigger] p.insert(
                pos,
                r.len() as int,
            )[b] ==> line_order(r.insert(pos, x)[b], r.insert(pos, x)[a]) == 1,
{
    let n = r.len() as int;
    let r2 = r.insert(pos, x);
    let p2 = p.insert(pos, n);
    assert forall|a: int, b: int| 0 <= a < b < r2.len() && #[trigger] p2[a] > #[trigger] p2[b] implies line_order(
        r2[b],
        r2[a],
    ) == 1 by {
        if a != pos && b != pos {
            let a0 = if a < pos { a } else { a - 1 };
            let b0 = if b < pos { b } else { b - 1 };
            assert(p2[a] == p[a0] && p2[b] == p[b0]);
            assert(r2[a] == r[a0] && r2[b] == r[b0]);
        } else if a == pos {
            assert(r2[a] == x && r2[b] == r[b - 1]);
        } else {
            assert(p2[b] == n && p2[a] == p[a]);
        }
    }
}

proof fn lemma_insert_sorted_line(r: Seq<Line>, pos: int, x: Line)
    requires
        lines_sorted(r),
        0 <= pos <= r.len(),
        pos > 0 ==> line_order(r[pos - 1], x) != 1,
        pos < r.len() ==> line_order(x, r[pos]) == -1,
    ensures
        lines_sorted(r.insert(pos, x)),
{
    let r2 = r.insert(pos, x);
    assert forall|k: int| 0 <= k && k + 1 < r2.len() implies line_order(#[trigger] r2[k], r2[k + 1]) != 1 by {
        if k + 1 < pos {
            assert(r2[k] == r[k] && r2[k + 1] == r[k + 1]);
        } else if k + 1 == pos {
            assert(r2[k] == r[k] && r2[k + 1] == x);
        } else if k == pos {
            assert(r2[k] == x && r2[k + 1] == r[k]);
        } else {
            assert(r2[k] == r[k - 1] && r2[k + 1] == r[k]);
        }
    }
}

proof fn lemma_insert_line(recs: Seq<LineRecord>, rec: LineRecord, r: Seq<Line>, p: Seq<int>, pos: int, x: Line)
    requires
        stably_ordered(recs, r, p),
        lines_sorted(r),
        line_made(rec, x),
        0 <= pos <= r.len(),
        pos > 0 ==> line_order(r[pos - 1], x) != 1,
        forall|k: int| pos <= k < r.len() ==> line_order(#[trigger] r[k], x) == 1 && line_order(x, r[k]) == -1,
    ensures
        stably_ordered(recs.push(rec), r.insert(pos, x), p.insert(pos, recs.len() as int)),
        lines_sorted(r.insert(pos, x)),
{
    lemma_insert_positions(recs.len() as int, p, pos);
    lemma_insert_made(recs, rec, r, p, pos, x);
    lemma_insert_stable(r, p, pos, x);
    if pos < r.len() {
        assert(line_order(x, r[pos]) == -1);
    }
    lemma_insert_sorted_line(r, pos, x);
}

/// The lines of a stop area, from the lines of the data that serve it, in
/// the order of lines (see `line_order`), lines that compare equal kept in
/// the order of the data.
pub fn get_lines(records: &Vec<LineRecord>) -> (r: Vec<Line>)
    requires
        forall|i: int| 0 <= i < records.len() ==> record_strings_ok(#[trigger] records@[i]),
    ensures
        exists|p: Seq<int>| stably_ordered(records@, r@, p),
        lines_sorted(r@),
{
    let mut r: Vec<Line> = Vec::new();
    let ghost mut p: Seq<int> = Seq::empty();
    let mut i: usize = 0;
    while i < records.len()
        invariant
            i <= records.len(),
            forall|j: int| 0 <= j < records.len() ==> record_strings_ok(#[trigger] records@[j]),
            stably_ordered(records@.take(i as int), r@, p),
            lines_sorted(r@),
            forall|k: int| 0 <= k < r.len() ==> line_strings_ok(#[trigger] r@[k]),
        decreases records.len() - i,
    {
        let x = Line::from_transit_model(&records[i]);
        assert(record_strings_ok(records@[i as int]));
        let mut pos: usize = r.len();
        while pos > 0 && compare_lines(&r[pos - 1], &x) == 1
            invariant
                pos <= r.len(),
                line_strings_ok(x),
                forall|k: int| 0 <= k < r.len() ==> line_strings_ok(#[trigger] r@[k]),
                forall|k: int| pos <= k < r.len() ==> line_order(#[trigger] r@[k], x) == 1 && line_order(x, r@[k]) == -1,
            decreases pos,
        {
            pos = pos - 1;
        }
        let ghost old_r = r@;
        proof {
            lemma_insert_line(records@.take(i as int), records@[i as int], old_r, p, pos as int, x);
            assert(records@.take(i + 1) =~= records@.take(i as int).push(records@[i as int]));
            p = p.insert(pos as int, i as int);
        }
        r.insert(pos, x);
        proof {
            assert forall|k: int| 0 <= k < r.len() implies line_strings_ok(#[trigger] r@[k]) by {
                if k < pos {
                    assert(r@[k] == old_r[k]);
                } else if k > pos {
                    assert(r@[k] == old_r[k - 1]);
                }
            }
        }
        i = i + 1;
    }
    assert(records@.take(records.len() as int) =~= records@);
    r
}
/// A contributor of the data, who publishes a feed.
#[derive(Debug, Clone)]
pub struct ContributorRecord {
    pub id: String,
    pub name: String,
    pub license: Option<String>,
    pub website: Option<String>,
}

/// A stop area as the transit data hold it, with the objects linked to
/// it: the modes, contributors and lines that serve it, and the
/// identifiers of its comments.
#[derive(Debug, Clone)]
pub struct StopAreaRecord {
    pub id: String,
    pub name: String,
    pub visible: bool,
    /// The name of its time zone, if it has one.
    pub timezone: Option<String>,
    pub codes: Vec<(String, String)>,
    pub properties: Vec<(String, String)>,
    pub comment_links: Vec<String>,
    pub commercial_modes: Vec<(String, String)>,
    pub physical_modes: Vec<(String, String)>,
    pub contributors: Vec<ContributorRecord>,
    pub lines: Vec<LineRecord>,
}

/// The characters of an optional string, empty when there is none.
pub open spec fn or_empty(o: Option<String>) -> Seq<char> {
    match o {
        Some(s) => s@,
        None => Seq::empty(),
    }
}

/// Feed publishers made from contributors, one for one: a missing licence
/// or website is empty.
pub open spec fn publishers_made(raw: Seq<ContributorRecord>, v: Seq<FeedPublisher>) -> bool {
    &&& v.len() == raw.len()
    &&& forall|i: int| 0 <= i < v.len() ==> {
        &&& (#[trigger] v[i]).id@ == raw[i].id@
        &&& v[i].name@ == raw[i].name@
        &&& v[i].license@ == or_empty(raw[i].license)
        &&& v[i].url@ == or_empty(raw[i].website)
    }
}

fn or_empty_string(o: &Option<String>) -> (r: String)
    ensures
        r@ == or_empty(*o),
{
    match o {
        Some(s) => s.clone(),
        None => String::new(),
    }
}

/// The feed publishers of contributors (see `publishers_made`).
pub fn make_publishers(raw: &Vec<ContributorRecord>) -> (r: Vec<FeedPublisher>)
    ensures
        publishers_made(raw@, r@),
{
    let mut r: Vec<FeedPublisher> = Vec::new();
    let mut i: usize = 0;
    while i < raw.len()
        invariant
            i <= raw.len(),
            r.len() == i,
            forall|k: int| 0 <= k < i ==> {
                &&& (#[trigger] r@[k]).id@ == raw@[k].id@
                &&& r@[k].name@ == raw@[k].name@
                &&& r@[k].license@ == or_empty(raw@[k].license)
                &&& r@[k].url@ == or_empty(raw@[k].website)
            },
        decreases raw.len() - i,
    {
        let c = &raw[i];
        r.push(
            FeedPublisher {
                id: c.id.clone(),
                license: or_empty_string(&c.license),
                name: c.name.clone(),
                url: or_empty_string(&c.website),
            },
        );
        i = i + 1;
    }
    r
}

/// The names of the comments that `links` refer to, in the order of the
/// links; a link to no comment of `table` (identifier, name) is skipped.
pub open spec fn linked_comments(links: Seq<String>, table: Seq<(String, String)>) -> Seq<Seq<char>>
    decreases links.len(),
{
    if links.len() == 0 {
        Seq::empty()
    } else {
        let before = linked_comments(links.drop_last(), table);
        match lookup(table, links.last()@) {
            Some(name) => before.push(name),
            None => before,
        }
    }
}

/// The names of comments.
pub open spec fn comment_names(v: Seq<Comment>) -> Seq<Seq<char>> {
    v.map_values(|c: Comment| c.name@)
}

/// The comments that `links` refer to (see `linked_comments`).
pub fn find_comments(links: &Vec<String>, table: &Vec<(String, String)>) -> (r: Vec<Comment>)
    ensures
        comment_names(r@) == linked_comments(links@, table@),
{
    let mut r: Vec<Comment> = Vec::new();
    let mut i: usize = 0;
    while i < links.len()
        invariant
            i <= links.len(),
            comment_names(r@) == linked_comments(links@.take(i as int), table@),
        decreases links.len() - i,
    {
        let ghost before = r@;
        assert(links@.take(i + 1).drop_last() =~= links@.take(i as int));
        assert(links@.take(i + 1).last() == links@[i as int]);
        match find_key(table, links[i].as_str()) {
            Some(j) => {
                r.push(Comment { name: table[j].1.clone() });
                assert(comment_names(r@) =~= comment_names(before).push(table@[j as int].1@));
            },
            None => {},
        }
        i = i + 1;
    }
    assert(links@.take(links.len() as int) =~= links@);
    r
}

/// The value of the last entry of `entries` whose key is `key`.
pub open spec fn last_lookup(entries: Seq<(String, String)>, key: Seq<char>) -> Option<Seq<char>>
    decreases entries.len(),
{
    if entries.len() == 0 {
        None
    } else if entries.last().0@ == key {
        Some(entries.last().1@)
    } else {
        last_lookup(entries.drop_last(), key)
    }
}

/// No two entries have the same key.
pub open spec fn keys_distinct(entries: Seq<(String, String)>) -> bool {
    forall|a: int, b: int| 0 <= a < b < entries.len() ==> (#[trigger] entries[a]).0@ != (#[trigger] entries[b]).0@
}

proof fn lemma_lookup_at(s: Seq<(String, String)>, j: int)
    requires
        0 <= j < s.len(),
        forall|k: int| 0 <= k < j ==> (#[trigger] s[k]).0@ != s[j].0@,
    ensures
        lookup(s, s[j].0@) == Some(s[j].1@),
    decreases j,
{
    if j > 0 {
        assert(s[0].0@ != s[j].0@);
        let t = s.drop_first();
        assert forall|k: int| 0 <= k < j - 1 implies (#[trigger] t[k]).0@ != t[j - 1].0@ by {
            assert(t[k] == s[k + 1]);
        }
        lemma_lookup_at(t, j - 1);
    }
}

proof fn lemma_lookup_absent(s: Seq<(String, String)>, key: Seq<char>)
    requires
        forall|k: int| 0 <= k < s.len() ==> (#[trigger] s[k]).0@ != key,
    ensures
        lookup(s, key) is None,
    decreases s.len(),
{
    if s.len() > 0 {
        assert(s[0].0@ != key);
        let t = s.drop_first();
        assert forall|k: int| 0 <= k < t.len() implies (#[trigger] t[k]).0@ != key by {
            assert(t[k] == s[k + 1]);
        }
        lemma_lookup_absent(t, key);
    }
}

/// With distinct keys, the value of a key is that of the one entry holding it.
proof fn lemma_lookup_distinct(s: Seq<(String, String)>, key: Seq<char>)
    requires
        keys_distinct(s),
    ensures
        match lookup(s, key) {
            Some(v) => exists|j: int| 0 <= j < s.len() && (#[trigger] s[j]).0@ == key && s[j].1@ == v,
            None => forall|j: int| 0 <= j < s.len() ==> (#[trigger] s[j]).0@ != key,
        },
{
    if exists|j: int| 0 <= j < s.len() && (#[trigger] s[j]).0@ == key {
        let j = choose|j: int| 0 <= j < s.len() && (#[trigger] s[j]).0@ == key;
        assert forall|k: int| 0 <= k < j implies (#[trigger] s[k]).0@ != s[j].0@ by {
            assert(s[k].0@ != s[j].0@);
        }
        lemma_lookup_at(s, j);
    } else {
        lemma_lookup_absent(s, key);
    }
}

/// The keys of entries, in order.
pub open spec fn pair_keys(entries: Seq<(String, String)>) -> Seq<Seq<char>> {
    entries.map_values(|e: (String, String)| e.0@)
}

/// The lookup of a key among entries with distinct keys, after a new
/// entry is inserted with a key that none of them has.
proof fn lemma_lookup_after_insert(before: Seq<(String, String)>, pos: int, e: (String, String), key: Seq<char>)
    requires
        keys_distinct(before),
        0 <= pos <= before.len(),
        forall|j: int| 0 <= j < before.len() ==> (#[trigger] before[j]).0@ != e.0@,
    ensures
        keys_distinct(before.insert(pos, e)),
        lookup(before.insert(pos, e), key) == (if key == e.0@ {
            Some(e.1@)
        } else {
            lookup(before, key)
        }),
{
    let r = before.insert(pos, e);
    assert forall|a: int, b: int| 0 <= a < b < r.len() implies (#[trigger] r[a]).0@ != (#[trigger] r[b]).0@ by {
        let a0 = if a < pos { a } else { a - 1 };
        let b0 = if b < pos { b } else { b - 1 };
        if a == pos {
            assert(r[b] == before[b0]);
        } else if b == pos {
            assert(r[a] == before[a0]);
        } else {
            assert(r[a] == before[a0] && r[b] == before[b0]);
        }
    }
    if key == e.0@ {
        assert forall|m: int| 0 <= m < pos implies (#[trigger] r[m]).0@ != r[pos].0@ by {
            assert(r[m] == before[m]);
        }
        lemma_lookup_at(r, pos);
    } else {
        lemma_lookup_distinct(before, key);
        match lookup(before, key) {
            Some(w) => {
                let m = choose|m: int| 0 <= m < before.len() && (#[trigger] before[m]).0@ == key && before[m].1@ == w;
                let m2 = if m < pos { m } else { m + 1 };
                assert(r[m2] == before[m]);
                assert forall|q: int| 0 <= q < m2 implies (#[trigger] r[q]).0@ != r[m2].0@ by {
                    assert(r[q].0@ != r[m2].0@);
                }
                lemma_lookup_at(r, m2);
            },
            None => {
                assert forall|q: int| 0 <= q < r.len() implies (#[trigger] r[q]).0@ != key by {
                    if q < pos {
                        assert(r[q] == before[q]);
                    } else if q > pos {
                        assert(r[q] == before[q - 1]);
                    }
                }
                lemma_lookup_absent(r, key);
            },
        }
    }
}

/// The entries as a map: one entry per key, holding the value of the last
/// entry with that key, in the order of keys.
pub fn last_values(pairs: &Vec<(String, String)>) -> (r: Vec<(String, String)>)
    ensures
        keys_distinct(r@),
        sorted_by(pair_keys(r@), lex_le()),
        forall|key: Seq<char>| #[trigger] lookup(r@, key) == last_lookup(pairs@, key),
{
    let mut r: Vec<(String, String)> = Vec::new();
    let mut i: usize = 0;
    assert(pair_keys(r@) =~= Seq::<Seq<char>>::empty());
    while i < pairs.len()
        invariant
            i <= pairs.len(),
            keys_distinct(r@),
            sorted_by(pair_keys(r@), lex_le()),
            forall|key: Seq<char>| #[trigger] lookup(r@, key) == last_lookup(pairs@.take(i as int), key),
        decreases pairs.len() - i,
    {
        let ghost before = r@;
        let ghost seen = pairs@.take(i as int);
        let ghost k = pairs@[i as int].0@;
        assert(pairs@.take(i + 1).drop_last() =~= seen);
        assert(pairs@.take(i + 1).last() == pairs@[i as int]);
        let entry = (pairs[i].0.clone(), pairs[i].1.clone());
        match find_key(&r, pairs[i].0.as_str()) {
            Some(j) => {
                r.set(j, entry);
                proof {
                    assert(pair_keys(r@) =~= pair_keys(before));
                    assert forall|a: int, b: int| 0 <= a < b < r@.len() implies (#[trigger] r@[a]).0@ != (
                    #[trigger] r@[b]).0@ by {
                        if a != j && b != j {
                            assert(r@[a] == before[a] && r@[b] == before[b]);
                        } else if a == j {
                            assert(r@[b] == before[b] && before[a].0@ == k);
                        } else {
                            assert(r@[a] == before[a] && before[b].0@ == k);
                        }
                    }
                    assert forall|key: Seq<char>| #[trigger] lookup(r@, key) == last_lookup(
                        pairs@.take(i + 1),
                        key,
                    ) by {
                        if key == k {
                            assert forall|m: int| 0 <= m < j implies (#[trigger] r@[m]).0@ != r@[j as int].0@ by {
                                assert(r@[m].0@ != r@[j as int].0@);
                            }
                            lemma_lookup_at(r@, j as int);
                        } else {
                            lemma_lookup_distinct(before, key);
                            lemma_lookup_distinct(r@, key);
                            match lookup(before, key) {
                                Some(w) => {
                                    let m = choose|m: int| 0 <= m < before.len() && (#[trigger] before[m]).0@ == key
                                        && before[m].1@ == w;
                                    assert(r@[m] == before[m]);
                                    assert forall|q: int| 0 <= q < m implies (#[trigger] r@[q]).0@ != r@[m].0@ by {
                                        assert(r@[q].0@ != r@[m].0@);
                                    }
                                    lemma_lookup_at(r@, m);
                                },
                                None => {
                                    assert forall|q: int| 0 <= q < r@.len() implies (#[trigger] r@[q]).0@ != key by {
                                        if q != j {
                                            assert(r@[q] == before[q]);
                                        }
                                    }
                                    lemma_lookup_absent(r@, key);
                                },
                            }
                        }
                    }
                }
            },
            None => {
                let mut pos: usize = 0;
                while pos < r.len() && str_le(r[pos].0.as_str(), pairs[i].0.as_str())
                    invariant
                        r@ == before,
                        k == pairs@[i as int].0@,
                        i < pairs.len(),
                        pos <= r.len(),
                        forall|m: int| 0 <= m < pos ==> seq_le(#[trigger] pair_keys(before)[m], k),
                    decreases r.len() - pos,
                {
                    pos = pos + 1;
                }
                proof {
                    lemma_lookup_distinct(before, k);
                    lemma_insert_sorted(pair_keys(before), pos as int, k);
                }
                r.insert(pos, entry);
                proof {
                    assert(pair_keys(r@) =~= pair_keys(before).insert(pos as int, k));
                    assert forall|key: Seq<char>| #[trigger] lookup(r@, key) == last_lookup(
                        pairs@.take(i + 1),
                        key,
                    ) by {
                        lemma_lookup_after_insert(before, pos as int, entry, key);
                    }
                    lemma_lookup_after_insert(before, pos as int, entry, k);
                }
            },
        }
        i = i + 1;
    }
    assert(pairs@.take(pairs.len() as int) =~= pairs@);
    r
}

/// The stop made from a stop area of the data (identifier prefixed with
/// `stop_area`, label and name its name) and the objects linked to it, in
/// the order of the data: its commercial and physical modes, the comments
/// of `comments` (identifier, name) its links refer to, its contributors as
/// feed publishers, its lines sorted (see `get_lines`), its time zone (or
/// none), its codes (the last value of each key), its properties and
/// whether it is visible. It has no region, zip code, coverage or country
/// code, and the weight `zero`.
pub fn to_mimir<W>(stop_area: &StopAreaRecord, comments: &Vec<(String, String)>, zero: W) -> (s: Stop<W>)
    requires
        forall|i: int| 0 <= i < stop_area.lines.len() ==> record_strings_ok(#[trigger] stop_area.lines@[i]),
    ensures
        s.id@ == normalized_id("stop_area"@, stop_area.id@),
        s.label@ == stop_area.name@,
        s.name@ == stop_area.name@,
        commercial_modes_made(stop_area.commercial_modes@, s.commercial_modes@),
        physical_modes_made(stop_area.physical_modes@, s.physical_modes@),
        comment_names(s.comments@) == linked_comments(stop_area.comment_links@, comments@),
        publishers_made(stop_area.contributors@, s.feed_publishers@),
        exists|p: Seq<int>| stably_ordered(stop_area.lines@, s.lines@, p),
        lines_sorted(s.lines@),
        s.timezone@ == or_empty(stop_area.timezone),
        keys_distinct(s.codes@),
        sorted_by(pair_keys(s.codes@), lex_le()),
        forall|key: Seq<char>| #[trigger] lookup(s.codes@, key) == last_lookup(stop_area.codes@, key),
        s.properties@ == stop_area.properties@,
        s.autocomplete_visible == stop_area.visible,
        s.zip_codes@.len() == 0,
        s.coverages@.len() == 0,
        s.country_codes@.len() == 0,
        s.distance is None,
        s.administrative_regions@.len() == 0,
        s.weight == zero,
{
    let id = normalize_id("stop_area", stop_area.id.as_str());
    proof {
        reveal_strlit("stop_area");
    }
    let mut s = new_stop(id, stop_area.name.clone(), stop_area.name.clone(), zero);
    s.commercial_modes = make_commercial_modes(&stop_area.commercial_modes);
    s.physical_modes = make_physical_modes(&stop_area.physical_modes);
    s.comments = find_comments(&stop_area.comment_links, comments);
    s.feed_publishers = make_publishers(&stop_area.contributors);
    let lines = get_lines(&stop_area.lines);
    let ghost order = choose|p: Seq<int>| stably_ordered(stop_area.lines@, lines@, p);
    s.lines = lines;
    s.timezone = or_empty_string(&stop_area.timezone);
    s.codes = last_values(&stop_area.codes);
    s.properties = copy_pairs(&stop_area.properties);
    s.autocomplete_visible = stop_area.visible;
    assert(stably_ordered(stop_area.lines@, s.lines@, order));
    s
}

} // verus!
