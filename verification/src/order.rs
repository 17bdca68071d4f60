//! The lexicographic order of character sequences, which is the order of
//! strings (ordering UTF-8 bytes orders code points), and sorting by it.
use vstd::prelude::*;
use vstd::relations::{sorted_by, total_ordering};
use crate::text::{chars_of, strs};

verus! {

broadcast use {vstd::seq_lib::group_to_multiset_ensures, vstd::multiset::group_multiset_axioms};

/// `a` comes before `b`, or equals it, in lexicographic order.
pub open spec fn seq_le(a: Seq<char>, b: Seq<char>) -> bool
    decreases a.len(),
{
    if a.len() == 0 {
        true
    } else if b.len() == 0 {
        false
    } else if a[0] != b[0] {
        (a[0] as int) < (b[0] as int)
    } else {
        seq_le(a.drop_first(), b.drop_first())
    }
}

/// The lexicographic order as a relation.
pub open spec fn lex_le() -> spec_fn(Seq<char>, Seq<char>) -> bool {
    |a: Seq<char>, b: Seq<char>| seq_le(a, b)
}

pub proof fn lemma_seq_le_reflexive(a: Seq<char>)
    ensures
        seq_le(a, a),
    decreases a.len(),
{
    if a.len() > 0 {
        lemma_seq_le_reflexive(a.drop_first());
    }
}

pub proof fn lemma_seq_le_antisymmetric(a: Seq<char>, b: Seq<char>)
    requires
        seq_le(a, b),
        seq_le(b, a),
    ensures
        a == b,
    decreases a.len(),
{
    if a.len() == 0 {
        assert(b.len() == 0);
        assert(a =~= b);
    } else {
        assert(b.len() > 0);
        assert(a[0] == b[0]);
        lemma_seq_le_antisymmetric(a.drop_first(), b.drop_first());
        assert(a =~= seq![a[0]] + a.drop_first());
        assert(b =~= seq![b[0]] + b.drop_first());
    }
}

pub proof fn lemma_seq_le_transitive(a: Seq<char>, b: Seq<char>, c: Seq<char>)
    requires
        seq_le(a, b),
        seq_le(b, c),
    ensures
        seq_le(a, c),
    decreases a.len(),
{
    if a.len() > 0 {
        assert(b.len() > 0);
        assert(c.len() > 0);
        if a[0] == b[0] && b[0] == c[0] {
            lemma_seq_le_transitive(a.drop_first(), b.drop_first(), c.drop_first());
        }
    }
}

pub proof fn lemma_seq_le_total(a: Seq<char>, b: Seq<char>)
    ensures
        seq_le(a, b) || seq_le(b, a),
    decreases a.len(),
{
    if a.len() > 0 && b.len() > 0 && a[0] == b[0] {
        lemma_seq_le_total(a.drop_first(), b.drop_first());
    }
}

/// The lexicographic order is a total order.
pub proof fn lemma_lex_total_ordering()
    ensures
        total_ordering(lex_le()),
{
    assert forall|x: Seq<char>| #[trigger] lex_le()(x, x) by {
        lemma_seq_le_reflexive(x);
    }
    assert forall|x: Seq<char>, y: Seq<char>| #[trigger] lex_le()(x, y) && #[trigger] lex_le()(y, x) implies x == y by {
        lemma_seq_le_antisymmetric(x, y);
    }
    assert forall|x: Seq<char>, y: Seq<char>, z: Seq<char>| #[trigger] lex_le()(x, y) && #[trigger] lex_le()(y, z) implies lex_le()(x, z) by {
        lemma_seq_le_transitive(x, y, z);
    }
    assert forall|x: Seq<char>, y: Seq<char>| #[trigger] lex_le()(x, y) || #[trigger] lex_le()(y, x) by {
        lemma_seq_le_total(x, y);
    }
}

/// Whether `a` comes before `b`, or equals it, in lexicographic order.
pub fn chars_le(a: &Vec<char>, b: &Vec<char>) -> (r: bool)
    ensures
        r == seq_le(a@, b@),
{
    let mut i: usize = 0;
    assert(a@.subrange(0, a.len() as int) =~= a@);
    assert(b@.subrange(0, b.len() as int) =~= b@);
    while i < a.len() && i < b.len() && a[i] == b[i]
        invariant
            i <= a.len(),
            i <= b.len(),
            seq_le(a@.subrange(i as int, a.len() as int), b@.subrange(i as int, b.len() as int))
                == seq_le(a@, b@),
        decreases a.len() - i,
    {
        assert(a@.subrange(i as int, a.len() as int).drop_first() =~= a@.subrange(
            i + 1,
            a.len() as int,
        ));
        assert(b@.subrange(i as int, b.len() as int).drop_first() =~= b@.subrange(
            i + 1,
            b.len() as int,
        ));
        i = i + 1;
    }
    let ghost sa = a@.subrange(i as int, a.len() as int);
    let ghost sb = b@.subrange(i as int, b.len() as int);
    if i == a.len() {
        assert(sa.len() == 0);
        true
    } else if i == b.len() {
        assert(sa.len() > 0 && sb.len() == 0);
        false
    } else {
        assert(sa[0] == a@[i as int] && sb[0] == b@[i as int]);
        a[i] < b[i]
    }
}

/// Whether the string `a` comes before `b`, or equals it, in the order of strings.
pub fn str_le(a: &str, b: &str) -> (r: bool)
    ensures
        r == seq_le(a@, b@),
{
    let x = chars_of(a);
    let y = chars_of(b);
    chars_le(&x, &y)
}

pub proof fn lemma_insert_sorted(s: Seq<Seq<char>>, pos: int, x: Seq<char>)
    requires
        sorted_by(s, lex_le()),
        0 <= pos <= s.len(),
        forall|k: int| 0 <= k < pos ==> seq_le(#[trigger] s[k], x),
        pos < s.len() ==> !seq_le(s[pos], x),
    ensures
        sorted_by(s.insert(pos, x), lex_le()),
{
    lemma_lex_total_ordering();
    let t = s.insert(pos, x);
    assert forall|i: int, j: int| 0 <= i < j < t.len() implies #[trigger] lex_le()(t[i], t[j]) by {
        if j < pos {
            assert(t[i] == s[i] && t[j] == s[j]);
        } else if j == pos {
            assert(t[j] == x && t[i] == s[i]);
        } else if i == pos {
            assert(t[i] == x && t[j] == s[j - 1]);
            lemma_seq_le_total(s[pos], x);
            if j - 1 > pos {
                assert(lex_le()(s[pos], s[j - 1]));
                lemma_seq_le_transitive(x, s[pos], s[j - 1]);
            }
        } else if i < pos {
            assert(t[i] == s[i] && t[j] == s[j - 1]);
        } else {
            assert(t[i] == s[i - 1] && t[j] == s[j - 1]);
        }
    }
}

/// The strings in the order of strings.
pub fn sort_strings(v: Vec<String>) -> (r: Vec<String>)
    ensures
        strs(r@) == strs(v@).sort_by(lex_le()),
{
    let mut r: Vec<String> = Vec::new();
    let mut i: usize = 0;
    while i < v.len()
        invariant
            i <= v.len(),
            sorted_by(strs(r@), lex_le()),
            strs(r@).to_multiset() == strs(v@.take(i as int)).to_multiset(),
        decreases v.len() - i,
    {
        let x = v[i].clone();
        let mut pos: usize = 0;
        while pos < r.len() && str_le(r[pos].as_str(), x.as_str())
            invariant
                pos <= r.len(),
                forall|k: int| 0 <= k < pos ==> seq_le(#[trigger] strs(r@)[k], x@),
            decreases r.len() - pos,
        {
            pos = pos + 1;
        }
        proof {
            lemma_insert_sorted(strs(r@), pos as int, x@);
            assert(strs(r@).insert(pos as int, x@).to_multiset() == strs(r@).to_multiset().insert(x@));
            assert(strs(v@.take(i + 1)) =~= strs(v@.take(i as int)).push(v@[i as int]@));
        }
        let ghost before = r@;
        r.insert(pos, x);
        assert(strs(r@) =~= strs(before).insert(pos as int, x@));
        i = i + 1;
    }
    proof {
        assert(v@.take(v.len() as int) =~= v@);
        lemma_lex_total_ordering();
        strs(v@).lemma_sort_by_ensures(lex_le());
        vstd::seq_lib::lemma_sorted_unique(strs(r@), strs(v@).sort_by(lex_le()), lex_le());
    }
    r
}

/// `a` comes before `b`, or equals it, in the lexicographic order of lists
/// of strings (each string compared lexicographically).
pub open spec fn list_le(a: Seq<Seq<char>>, b: Seq<Seq<char>>) -> bool
    decreases a.len(),
{
    if a.len() == 0 {
        true
    } else if b.len() == 0 {
        false
    } else if a[0] != b[0] {
        seq_le(a[0], b[0])
    } else {
        list_le(a.drop_first(), b.drop_first())
    }
}

proof fn lemma_list_le_reflexive(a: Seq<Seq<char>>)
    ensures
        list_le(a, a),
    decreases a.len(),
{
    if a.len() > 0 {
        lemma_list_le_reflexive(a.drop_first());
    }
}

proof fn lemma_list_le_antisymmetric(a: Seq<Seq<char>>, b: Seq<Seq<char>>)
    requires
        list_le(a, b),
        list_le(b, a),
    ensures
        a == b,
    decreases a.len(),
{
    if a.len() == 0 {
        assert(a =~= b);
    } else {
        if a[0] != b[0] {
            lemma_seq_le_antisymmetric(a[0], b[0]);
        }
        lemma_list_le_antisymmetric(a.drop_first(), b.drop_first());
        assert(a =~= seq![a[0]] + a.drop_first());
        assert(b =~= seq![b[0]] + b.drop_first());
    }
}

proof fn lemma_list_le_transitive(a: Seq<Seq<char>>, b: Seq<Seq<char>>, c: Seq<Seq<char>>)
    requires
        list_le(a, b),
        list_le(b, c),
    ensures
        list_le(a, c),
    decreases a.len(),
{
    if a.len() > 0 {
        if a[0] == b[0] && b[0] == c[0] {
            lemma_list_le_transitive(a.drop_first(), b.drop_first(), c.drop_first());
        } else if a[0] != b[0] && b[0] != c[0] {
            lemma_seq_le_transitive(a[0], b[0], c[0]);
            if a[0] == c[0] {
                lemma_seq_le_antisymmetric(a[0], b[0]);
            }
        }
    }
}

proof fn lemma_list_le_total(a: Seq<Seq<char>>, b: Seq<Seq<char>>)
    ensures
        list_le(a, b) || list_le(b, a),
    decreases a.len(),
{
    if a.len() > 0 && b.len() > 0 {
        if a[0] == b[0] {
            lemma_list_le_total(a.drop_first(), b.drop_first());
        } else {
            lemma_seq_le_total(a[0], b[0]);
        }
    }
}

/// The order of (name, list of strings) keys: by name, then by list.
pub open spec fn key_le(a: (Seq<char>, Seq<Seq<char>>), b: (Seq<char>, Seq<Seq<char>>)) -> bool {
    if a.0 != b.0 {
        seq_le(a.0, b.0)
    } else {
        list_le(a.1, b.1)
    }
}

/// The order of keys as a relation.
pub open spec fn key_order() -> spec_fn((Seq<char>, Seq<Seq<char>>), (Seq<char>, Seq<Seq<char>>)) -> bool {
    |a: (Seq<char>, Seq<Seq<char>>), b: (Seq<char>, Seq<Seq<char>>)| key_le(a, b)
}

/// The order of keys is a total order.
pub proof fn lemma_key_total_ordering()
    ensures
        total_ordering(key_order()),
{
    assert forall|x: (Seq<char>, Seq<Seq<char>>)| #[trigger] key_order()(x, x) by {
        lemma_list_le_reflexive(x.1);
    }
    assert forall|x: (Seq<char>, Seq<Seq<char>>), y: (Seq<char>, Seq<Seq<char>>)|
        #[trigger] key_order()(x, y) && #[trigger] key_order()(y, x) implies x == y by {
        if x.0 != y.0 {
            lemma_seq_le_antisymmetric(x.0, y.0);
        } else {
            lemma_list_le_antisymmetric(x.1, y.1);
        }
    }
    assert forall|x: (Seq<char>, Seq<Seq<char>>), y: (Seq<char>, Seq<Seq<char>>), z: (Seq<char>, Seq<Seq<char>>)|
        #[trigger] key_order()(x, y) && #[trigger] key_order()(y, z) implies key_order()(x, z) by {
        if x.0 != y.0 && y.0 != z.0 {
            lemma_seq_le_transitive(x.0, y.0, z.0);
            if x.0 == z.0 {
                lemma_seq_le_antisymmetric(x.0, y.0);
            }
        } else if x.0 == y.0 && y.0 == z.0 {
            lemma_list_le_transitive(x.1, y.1, z.1);
        }
    }
    assert forall|x: (Seq<char>, Seq<Seq<char>>), y: (Seq<char>, Seq<Seq<char>>)|
        #[trigger] key_order()(x, y) || #[trigger] key_order()(y, x) by {
        if x.0 != y.0 {
            lemma_seq_le_total(x.0, y.0);
        } else {
            lemma_list_le_total(x.1, y.1);
        }
    }
}

/// Whether the list `a` comes before `b`, or equals it (see `list_le`).
pub fn strings_le(a: &Vec<String>, b: &Vec<String>) -> (r: bool)
    ensures
        r == list_le(strs(a@), strs(b@)),
{
    let ghost sa = strs(a@);
    let ghost sb = strs(b@);
    let mut i: usize = 0;
    assert(sa.subrange(0, sa.len() as int) =~= sa);
    assert(sb.subrange(0, sb.len() as int) =~= sb);
    while i < a.len() && i < b.len() && a[i] == b[i]
        invariant
            sa == strs(a@),
            sb == strs(b@),
            i <= a.len(),
            i <= b.len(),
            list_le(sa.subrange(i as int, sa.len() as int), sb.subrange(i as int, sb.len() as int))
                == list_le(sa, sb),
        decreases a.len() - i,
    {
        assert(sa.subrange(i as int, sa.len() as int).drop_first() =~= sa.subrange(
            i + 1,
            sa.len() as int,
        ));
        assert(sb.subrange(i as int, sb.len() as int).drop_first() =~= sb.subrange(
            i + 1,
            sb.len() as int,
        ));
        assert(sa[i as int] == a@[i as int]@);
        assert(sb[i as int] == b@[i as int]@);
        i = i + 1;
    }
    let ghost ta = sa.subrange(i as int, sa.len() as int);
    let ghost tb = sb.subrange(i as int, sb.len() as int);
    if i == a.len() {
        assert(ta.len() == 0);
        true
    } else if i == b.len() {
        assert(ta.len() > 0 && tb.len() == 0);
        false
    } else {
        assert(ta[0] == a@[i as int]@ && tb[0] == b@[i as int]@);
        str_le(a[i].as_str(), b[i].as_str())
    }
}

/// Inserting an element after the elements that come before it or equal
/// it, and before the first that comes after it, keeps a sequence sorted.
pub proof fn lemma_insert_sorted_by<T>(s: Seq<T>, pos: int, x: T, leq: spec_fn(T, T) -> bool)
    requires
        total_ordering(leq),
        sorted_by(s, leq),
        0 <= pos <= s.len(),
        forall|k: int| 0 <= k < pos ==> #[trigger] leq(s[k], x),
        pos < s.len() ==> !leq(s[pos], x),
    ensures
        sorted_by(s.insert(pos, x), leq),
{
    let t = s.insert(pos, x);
    assert forall|i: int, j: int| 0 <= i < j < t.len() implies #[trigger] leq(t[i], t[j]) by {
        if j < pos {
            assert(t[i] == s[i] && t[j] == s[j]);
        } else if j == pos {
            assert(t[j] == x && t[i] == s[i]);
        } else if i == pos {
            assert(t[i] == x && t[j] == s[j - 1]);
            assert(leq(s[pos], x) || leq(x, s[pos]));
            if j - 1 > pos {
                assert(leq(s[pos], s[j - 1]));
            }
        } else if i < pos {
            assert(t[i] == s[i] && t[j] == s[j - 1]);
        } else {
            assert(t[i] == s[i - 1] && t[j] == s[j - 1]);
        }
    }
}

} // verus!
