use vstd::prelude::*;
use vstd::string::StringExecFns;

verus! {

broadcast use vstd::string::group_string_axioms;

/// The characters of a string slice, in order.
pub fn chars_of(s: &str) -> (v: Vec<char>)
    ensures
        v@ == s@,
{
    let mut v: Vec<char> = Vec::new();
    let ghost whole = s@;
    for c in iter: s.chars()
        invariant
            whole == s@,
            v@ == iter.seq().take(iter.index() as int),
            iter.index() <= iter.seq().len(),
    {
        v.push(c);
    }
    v
}

/// `String::push` appends one character at the end of the string, as the
/// standard library documents; nothing else about the string changes.
pub assume_specification[ String::push ](s: &mut String, ch: char)
    ensures
        final(s)@ == old(s)@.push(ch),
;

/// The string made of the given characters, in order.
pub fn string_from_chars(v: &Vec<char>) -> (s: String)
    ensures
        s@ == v@,
{
    let mut s = String::new();
    let mut i: usize = 0;
    while i < v.len()
        invariant
            i <= v.len(),
            s@ == v@.take(i as int),
        decreases v.len() - i,
    {
        s.push(v[i]);
        i = i + 1;
        assert(s@ =~= v@.take(i as int));
    }
    assert(v@.take(v.len() as int) =~= v@);
    s
}

/// Whether two character sequences are equal, compared one character at a time.
pub fn chars_eq(a: &Vec<char>, b: &Vec<char>) -> (r: bool)
    ensures
        r == (a@ == b@),
{
    if a.len() != b.len() {
        return false;
    }
    let mut i: usize = 0;
    while i < a.len()
        invariant
            a.len() == b.len(),
            i <= a.len(),
            forall|j: int| 0 <= j < i ==> a@[j] == b@[j],
        decreases a.len() - i,
    {
        if a[i] != b[i] {
            return false;
        }
        i = i + 1;
    }
    assert(a@ =~= b@);
    true
}

/// Whether a string equals a string slice.
pub fn string_eq_str(a: &String, b: &str) -> (r: bool)
    ensures
        r == (a@ == b@),
{
    let x = chars_of(a.as_str());
    let y = chars_of(b);
    chars_eq(&x, &y)
}

/// A vector of strings seen as a sequence of character sequences.
pub open spec fn strs(v: Seq<String>) -> Seq<Seq<char>> {
    v.map_values(|s: String| s@)
}

/// An optional string seen as an optional character sequence.
pub open spec fn opt_str(o: Option<String>) -> Option<Seq<char>> {
    match o {
        Some(s) => Some(s@),
        None => None,
    }
}

pub proof fn lemma_strs_push(v: Seq<String>, s: String)
    ensures
        strs(v.push(s)) == strs(v).push(s@),
{
    assert(strs(v.push(s)) =~= strs(v).push(s@));
}

/// Appends `t` at the end of `s`.
pub fn push_all(s: &mut String, t: &str)
    ensures
        final(s)@ == old(s)@ + t@,
{
    s.append(t);
}

/// The character of a decimal digit.
pub open spec fn digit_char(d: int) -> char {
    if d == 0 {
        '0'
    } else if d == 1 {
        '1'
    } else if d == 2 {
        '2'
    } else if d == 3 {
        '3'
    } else if d == 4 {
        '4'
    } else if d == 5 {
        '5'
    } else if d == 6 {
        '6'
    } else if d == 7 {
        '7'
    } else if d == 8 {
        '8'
    } else {
        '9'
    }
}

/// The decimal writing of a natural number, without leading zeros.
pub open spec fn decimal(n: nat) -> Seq<char>
    decreases n,
{
    if n < 10 {
        seq![digit_char(n as int)]
    } else {
        decimal(n / 10).push(digit_char((n % 10) as int))
    }
}

/// The decimal writing of an integer, with a minus sign when it is negative.
pub open spec fn int_text(n: int) -> Seq<char> {
    if n < 0 {
        seq!['-'] + decimal((-n) as nat)
    } else {
        decimal(n as nat)
    }
}

fn digit(d: u64) -> (c: char)
    requires
        d < 10,
    ensures
        c == digit_char(d as int),
{
    if d == 0 {
        '0'
    } else if d == 1 {
        '1'
    } else if d == 2 {
        '2'
    } else if d == 3 {
        '3'
    } else if d == 4 {
        '4'
    } else if d == 5 {
        '5'
    } else if d == 6 {
        '6'
    } else if d == 7 {
        '7'
    } else if d == 8 {
        '8'
    } else {
        '9'
    }
}

/// Appends the decimal writing of `n`.
pub fn push_decimal(s: &mut String, n: u64)
    ensures
        final(s)@ == old(s)@ + decimal(n as nat),
    decreases n,
{
    if n >= 10 {
        push_decimal(s, n / 10);
    }
    s.push(digit(n % 10));
    proof {
        if n >= 10 {
            assert(old(s)@ + decimal(n as nat) =~= old(s)@ + decimal((n / 10) as nat) + seq![
                digit_char((n % 10) as int),
            ]);
        } else {
            assert(old(s)@ + decimal(n as nat) =~= old(s)@.push(digit_char((n % 10) as int)));
        }
    }
}

/// Appends the decimal writing of `n`, signed.
pub fn push_int(s: &mut String, n: i64)
    ensures
        final(s)@ == old(s)@ + int_text(n as int),
{
    if n < 0 {
        s.push('-');
        let m: u64 = ((-(n + 1)) as u64) + 1;
        push_decimal(s, m);
        assert(old(s)@ + int_text(n as int) =~= old(s)@.push('-') + decimal(m as nat));
    } else {
        push_decimal(s, n as u64);
    }
}

/// A decimal digit character.
pub open spec fn is_digit(c: char) -> bool {
    '0' <= c && c <= '9'
}

/// The value of a sequence of decimal digits (0 for the empty sequence).
pub open spec fn digits_value(s: Seq<char>) -> nat
    decreases s.len(),
{
    if s.len() == 0 {
        0
    } else {
        digits_value(s.drop_last()) * 10 + ((s.last() as int) - ('0' as int)) as nat
    }
}

/// The characters after an optional leading `+`.
pub open spec fn unsigned_digits(s: Seq<char>) -> Seq<char> {
    if s.len() > 0 && s[0] == '+' {
        s.drop_first()
    } else {
        s
    }
}

/// Every character is a decimal digit.
pub open spec fn all_digits(d: Seq<char>) -> bool {
    forall|i: int| 0 <= i < d.len() ==> is_digit(#[trigger] d[i])
}

/// What the standard library reads from a string as an unsigned 32-bit
/// integer: an optional `+`, then at least one decimal digit and nothing
/// else, with a value that fits.
pub open spec fn parse_u32_spec(s: Seq<char>) -> Option<u32> {
    let d = unsigned_digits(s);
    if d.len() > 0 && all_digits(d) && digits_value(d) <= u32::MAX {
        Some(digits_value(d) as u32)
    } else {
        None
    }
}

proof fn lemma_digit_char_value(k: int)
    requires
        0 <= k < 10,
    ensures
        is_digit(digit_char(k)),
        (digit_char(k) as int) - ('0' as int) == k,
{
}

/// The decimal writing of a number is a non-empty sequence of digits
/// whose value is the number.
pub proof fn lemma_decimal_value(n: nat)
    ensures
        decimal(n).len() > 0,
        all_digits(decimal(n)),
        digits_value(decimal(n)) == n,
    decreases n,
{
    if n >= 10 {
        lemma_decimal_value(n / 10);
        lemma_digit_char_value((n % 10) as int);
        let d = decimal(n);
        assert(d.drop_last() =~= decimal(n / 10));
        assert forall|i: int| 0 <= i < d.len() implies is_digit(#[trigger] d[i]) by {
            if i < d.len() - 1 {
                assert(d[i] == decimal(n / 10)[i]);
            }
        }
        assert(d.last() == digit_char((n % 10) as int));
        assert(digits_value(d) == digits_value(decimal(n / 10)) * 10 + (n % 10));
        assert((n / 10) * 10 + n % 10 == n);
    } else {
        lemma_digit_char_value(n as int);
        let d = decimal(n);
        assert(d =~= seq![digit_char(n as int)]);
        assert(d.drop_last() =~= Seq::<char>::empty());
        assert(digits_value(d.drop_last()) == 0);
        assert(digits_value(d) == ((d.last() as int) - ('0' as int)) as nat);
    }
}

/// Reading back the decimal writing of a 32-bit number gives the number.
pub proof fn lemma_parse_decimal(l: u32)
    ensures
        parse_u32_spec(decimal(l as nat)) == Some(l),
{
    lemma_decimal_value(l as nat);
    let d = decimal(l as nat);
    assert(is_digit(d[0]));
    assert(unsigned_digits(d) == d);
}

/// Reads an unsigned 32-bit integer written in decimal.
pub fn parse_u32(s: &str) -> (r: Option<u32>)
    ensures
        r == parse_u32_spec(s@),
{
    let cs = chars_of(s);
    let start: usize = if cs.len() > 0 && cs[0] == '+' {
        1
    } else {
        0
    };
    let ghost d = unsigned_digits(s@);
    assert(d =~= cs@.subrange(start as int, cs@.len() as int));
    if start >= cs.len() {
        return None;
    }
    let mut acc: u64 = 0;
    let mut too_big = false;
    let mut i: usize = start;
    while i < cs.len()
        invariant
            start <= i <= cs.len(),
            d == cs@.subrange(start as int, cs@.len() as int),
            d == unsigned_digits(s@),
            forall|k: int| 0 <= k < i - start ==> is_digit(#[trigger] d[k]),
            !too_big ==> acc == digits_value(d.take(i - start)) && acc <= u32::MAX,
            too_big ==> digits_value(d.take(i - start)) > u32::MAX,
        decreases cs.len() - i,
    {
        let c = cs[i];
        assert(c == d[i - start]);
        if !('0' <= c && c <= '9') {
            assert(!is_digit(d[i - start]));
            return None;
        }
        let ghost pre = d.take(i - start);
        assert(d.take(i + 1 - start).drop_last() =~= pre);
        assert(d.take(i + 1 - start).last() == c);
        if !too_big {
            let v: u64 = (c as u64) - ('0' as u64);
            acc = acc * 10 + v;
            if acc > 4294967295 {
                too_big = true;
            }
        }
        i = i + 1;
    }
    assert(d.take(d.len() as int) =~= d);
    if too_big {
        None
    } else {
        Some(acc as u32)
    }
}

/// The pieces of `s` between the occurrences of `sep`, in order; there is
/// always one piece more than there are separators.
pub open spec fn split_spec(s: Seq<char>, sep: char) -> Seq<Seq<char>>
    decreases s.len(),
{
    if s.len() == 0 {
        seq![seq![]]
    } else {
        let r = split_spec(s.drop_last(), sep);
        if s.last() == sep {
            r.push(seq![])
        } else {
            r.update(r.len() - 1, r.last().push(s.last()))
        }
    }
}

pub proof fn lemma_split_len(s: Seq<char>, sep: char)
    ensures
        split_spec(s, sep).len() >= 1,
    decreases s.len(),
{
    if s.len() > 0 {
        lemma_split_len(s.drop_last(), sep);
    }
}

/// Splits a string at every occurrence of a separator.
pub fn split_on(s: &str, sep: char) -> (parts: Vec<String>)
    ensures
        strs(parts@) == split_spec(s@, sep),
{
    let cs = chars_of(s);
    let mut parts: Vec<String> = Vec::new();
    let mut cur = String::new();
    let mut i: usize = 0;
    while i < cs.len()
        invariant
            i <= cs.len(),
            strs(parts@).push(cur@) == split_spec(cs@.take(i as int), sep),
        decreases cs.len() - i,
    {
        let c = cs[i];
        let ghost pre = cs@.take(i as int);
        assert(cs@.take(i + 1).drop_last() =~= pre);
        proof {
            lemma_split_len(pre, sep);
        }
        if c == sep {
            proof {
                lemma_strs_push(parts@, cur);
            }
            parts.push(cur);
            cur = String::new();
            assert(strs(parts@).push(cur@) =~= split_spec(pre, sep).push(seq![]));
        } else {
            let ghost old_cur = cur@;
            cur.push(c);
            assert(strs(parts@).push(cur@) =~= split_spec(pre, sep).update(
                split_spec(pre, sep).len() - 1,
                old_cur.push(c),
            ));
        }
        i = i + 1;
    }
    proof {
        lemma_strs_push(parts@, cur);
    }
    parts.push(cur);
    assert(cs@.take(cs.len() as int) =~= cs@);
    parts
}

/// What becomes of a character in an identifier made from a house number:
/// blanks are dropped, `/ . : ;` become `-`.
pub open spec fn id_char(c: char) -> Option<char> {
    if c == ' ' || c == '\t' || c == '\r' || c == '\n' {
        None
    } else if c == '/' || c == '.' || c == ':' || c == ';' {
        Some('-')
    } else {
        Some(c)
    }
}

/// A house number made fit for an identifier.
pub open spec fn id_text(s: Seq<char>) -> Seq<char>
    decreases s.len(),
{
    if s.len() == 0 {
        seq![]
    } else {
        let p = id_text(s.drop_last());
        match id_char(s.last()) {
            Some(d) => p.push(d),
            None => p,
        }
    }
}

/// Removes blanks and turns `/ . : ;` into `-`.
pub fn sanitize_for_id(s: &str) -> (r: String)
    ensures
        r@ == id_text(s@),
{
    let cs = chars_of(s);
    let mut r = String::new();
    let mut i: usize = 0;
    while i < cs.len()
        invariant
            i <= cs.len(),
            r@ == id_text(cs@.take(i as int)),
        decreases cs.len() - i,
    {
        let c = cs[i];
        assert(cs@.take(i + 1).drop_last() =~= cs@.take(i as int));
        if c == ' ' || c == '\t' || c == '\r' || c == '\n' {
        } else if c == '/' || c == '.' || c == ':' || c == ';' {
            r.push('-');
        } else {
            r.push(c);
        }
        i = i + 1;
    }
    assert(cs@.take(cs.len() as int) =~= cs@);
    r
}

/// The characters of `s` other than `c`, in order.
pub open spec fn without_char(s: Seq<char>, c: char) -> Seq<char>
    decreases s.len(),
{
    if s.len() == 0 {
        seq![]
    } else {
        let p = without_char(s.drop_last(), c);
        if s.last() == c {
            p
        } else {
            p.push(s.last())
        }
    }
}

/// Removes every occurrence of a character.
pub fn remove_char(s: &Vec<char>, c: char) -> (r: Vec<char>)
    ensures
        r@ == without_char(s@, c),
{
    let mut r: Vec<char> = Vec::new();
    let mut i: usize = 0;
    while i < s.len()
        invariant
            i <= s.len(),
            r@ == without_char(s@.take(i as int), c),
        decreases s.len() - i,
    {
        assert(s@.take(i + 1).drop_last() =~= s@.take(i as int));
        if s[i] != c {
            r.push(s[i]);
        }
        i = i + 1;
    }
    assert(s@.take(s.len() as int) =~= s@);
    r
}

/// The first position at or after `i` where `p` occurs in `s`.
pub open spec fn find_from(s: Seq<char>, p: Seq<char>, i: int) -> Option<int>
    decreases s.len() + 1 - i,
{
    if i < 0 || i + p.len() > s.len() {
        None
    } else if s.subrange(i, i + p.len()) == p {
        Some(i)
    } else {
        find_from(s, p, i + 1)
    }
}

/// `s` with the first occurrence of `p` removed, if `p` occurs in it.
pub open spec fn remove_first(s: Seq<char>, p: Seq<char>) -> Seq<char> {
    match find_from(s, p, 0) {
        Some(i) => s.subrange(0, i) + s.subrange(i + p.len(), s.len() as int),
        None => s,
    }
}

/// Whether `p` occurs in `s` at position `i`.
fn occurs_at(s: &Vec<char>, p: &Vec<char>, i: usize) -> (r: bool)
    requires
        i + p.len() <= s.len(),
    ensures
        r == (s@.subrange(i as int, i + p.len()) == p@),
{
    let mut k: usize = 0;
    while k < p.len()
        invariant
            i + p.len() <= s.len(),
            k <= p.len(),
            forall|j: int| 0 <= j < k ==> s@[i + j] == p@[j],
        decreases p.len() - k,
    {
        if s[i + k] != p[k] {
            assert(s@.subrange(i as int, i + p.len())[k as int] != p@[k as int]);
            return false;
        }
        k = k + 1;
    }
    assert(s@.subrange(i as int, i + p.len()) =~= p@);
    true
}

/// Removes the first occurrence of `p` from `s`, if there is one.
pub fn remove_first_occurrence(s: &Vec<char>, p: &Vec<char>) -> (r: Vec<char>)
    ensures
        r@ == remove_first(s@, p@),
{
    let mut i: usize = 0;
    while i <= s.len() && p.len() <= s.len() - i
        invariant
            i <= s.len() + 1,
            find_from(s@, p@, i as int) == find_from(s@, p@, 0),
        decreases s.len() + 1 - i,
    {
        if occurs_at(s, p, i) {
            let mut r: Vec<char> = Vec::new();
            let mut k: usize = 0;
            while k < i
                invariant
                    k <= i,
                    i + p.len() <= s.len(),
                    r@ == s@.subrange(0, k as int),
                decreases i - k,
            {
                r.push(s[k]);
                k = k + 1;
                assert(r@ =~= s@.subrange(0, k as int));
            }
            let mut k: usize = i + p.len();
            while k < s.len()
                invariant
                    i + p.len() <= k <= s.len(),
                    r@ == s@.subrange(0, i as int) + s@.subrange(i + p.len(), k as int),
                decreases s.len() - k,
            {
                r.push(s[k]);
                k = k + 1;
                assert(r@ =~= s@.subrange(0, i as int) + s@.subrange(i + p.len(), k as int));
            }
            return r;
        }
        proof {
            if p.len() == 0 {
                assert(s@.subrange(i as int, i as int) =~= p@);
            }
        }
        i = i + 1;
    }
    let mut r: Vec<char> = Vec::new();
    let mut k: usize = 0;
    while k < s.len()
        invariant
            k <= s.len(),
            r@ == s@.subrange(0, k as int),
        decreases s.len() - k,
    {
        r.push(s[k]);
        k = k + 1;
        assert(r@ =~= s@.subrange(0, k as int));
    }
    assert(r@ =~= s@);
    r
}

/// `s` without its leading occurrences of `c`.
pub open spec fn trim_leading(s: Seq<char>, c: char) -> Seq<char>
    decreases s.len(),
{
    if s.len() > 0 && s[0] == c {
        trim_leading(s.drop_first(), c)
    } else {
        s
    }
}

/// Removes the leading occurrences of a character.
pub fn trim_start_char(s: &Vec<char>, c: char) -> (r: Vec<char>)
    ensures
        r@ == trim_leading(s@, c),
{
    let mut i: usize = 0;
    assert(s@.subrange(0, s.len() as int) =~= s@);
    while i < s.len() && s[i] == c
        invariant
            i <= s.len(),
            trim_leading(s@.subrange(i as int, s.len() as int), c) == trim_leading(s@, c),
        decreases s.len() - i,
    {
        assert(s@.subrange(i as int, s.len() as int).drop_first() =~= s@.subrange(
            i + 1,
            s.len() as int,
        ));
        i = i + 1;
    }
    let mut r: Vec<char> = Vec::new();
    let mut k: usize = i;
    while k < s.len()
        invariant
            i <= k <= s.len(),
            r@ == s@.subrange(i as int, k as int),
        decreases s.len() - k,
    {
        r.push(s[k]);
        k = k + 1;
        assert(r@ =~= s@.subrange(i as int, k as int));
    }
    r
}

/// Whether `s` begins with `p`.
pub open spec fn has_prefix(s: Seq<char>, p: Seq<char>) -> bool {
    p.len() <= s.len() && s.subrange(0, p.len() as int) == p
}

/// Whether `s` begins with `p`.
pub fn starts_with(s: &str, p: &str) -> (r: bool)
    ensures
        r == has_prefix(s@, p@),
{
    let sv = chars_of(s);
    let pv = chars_of(p);
    if pv.len() > sv.len() {
        false
    } else {
        occurs_at(&sv, &pv, 0)
    }
}

/// Whether `s` ends with `p`.
pub open spec fn has_suffix(s: Seq<char>, p: Seq<char>) -> bool {
    p.len() <= s.len() && s.subrange(s.len() - p.len(), s.len() as int) == p
}

/// Whether `s` ends with `p`.
pub fn ends_with(s: &str, p: &str) -> (r: bool)
    ensures
        r == has_suffix(s@, p@),
{
    let sv = chars_of(s);
    let pv = chars_of(p);
    if pv.len() > sv.len() {
        false
    } else {
        occurs_at(&sv, &pv, sv.len() - pv.len())
    }
}

/// Whether two string slices are equal.
pub fn str_eq(a: &str, b: &str) -> (r: bool)
    ensures
        r == (a@ == b@),
{
    let x = chars_of(a);
    let y = chars_of(b);
    chars_eq(&x, &y)
}

/// Appends characters at the end of a string.
pub fn push_chars(s: &mut String, v: &Vec<char>)
    ensures
        final(s)@ == old(s)@ + v@,
{
    let mut i: usize = 0;
    while i < v.len()
        invariant
            i <= v.len(),
            s@ == old(s)@ + v@.take(i as int),
        decreases v.len() - i,
    {
        s.push(v[i]);
        i = i + 1;
        assert(s@ =~= old(s)@ + v@.take(i as int));
    }
    assert(v@.take(v.len() as int) =~= v@);
}

/// The value of the first entry of `entries` whose key is `key`.
pub open spec fn lookup(entries: Seq<(String, String)>, key: Seq<char>) -> Option<Seq<char>>
    decreases entries.len(),
{
    if entries.len() == 0 {
        None
    } else if entries[0].0@ == key {
        Some(entries[0].1@)
    } else {
        lookup(entries.drop_first(), key)
    }
}

/// The position of the first entry whose key is `key`.
pub fn find_key(entries: &Vec<(String, String)>, key: &str) -> (r: Option<usize>)
    ensures
        match r {
            Some(i) => i < entries.len() && entries@[i as int].0@ == key@ && lookup(entries@, key@)
                == Some(entries@[i as int].1@),
            None => lookup(entries@, key@) is None,
        },
{
    let mut i: usize = 0;
    assert(entries@.subrange(0, entries.len() as int) =~= entries@);
    while i < entries.len()
        invariant
            i <= entries.len(),
            lookup(entries@.subrange(i as int, entries.len() as int), key@) == lookup(
                entries@,
                key@,
            ),
        decreases entries.len() - i,
    {
        let ghost rest = entries@.subrange(i as int, entries.len() as int);
        assert(rest[0] == entries@[i as int]);
        if string_eq_str(&entries[i].0, key) {
            return Some(i);
        }
        assert(rest.drop_first() =~= entries@.subrange(i + 1, entries.len() as int));
        i = i + 1;
    }
    None
}

/// The number of bytes of a character in UTF-8.
pub open spec fn utf8_len(c: char) -> nat {
    if (c as u32) < 0x80 {
        1
    } else if (c as u32) < 0x800 {
        2
    } else if (c as u32) < 0x10000 {
        3
    } else {
        4
    }
}

/// The number of bytes of characters in UTF-8.
pub open spec fn utf8_width(s: Seq<char>) -> nat
    decreases s.len(),
{
    if s.len() == 0 {
        0
    } else {
        utf8_width(s.drop_last()) + utf8_len(s.last())
    }
}

/// The characters whose UTF-8 bytes lie within the first `n` bytes of
/// the UTF-8 text of `s`.
pub open spec fn take_bytes(s: Seq<char>, n: int) -> Seq<char>
    decreases s.len(),
{
    if s.len() == 0 || utf8_len(s[0]) > n {
        Seq::empty()
    } else {
        seq![s[0]] + take_bytes(s.drop_first(), n - utf8_len(s[0]))
    }
}

/// The UTF-8 text of `s` is shorter than `n` bytes, or its first `n` bytes
/// end on a character boundary: slicing it at byte `n` does not panic.
pub open spec fn byte_boundary(s: Seq<char>, n: int) -> bool {
    utf8_width(s) < n || utf8_width(take_bytes(s, n)) == n
}

/// The number of bytes of a character in UTF-8.
pub fn char_utf8_len(c: char) -> (r: usize)
    ensures
        r == utf8_len(c),
{
    let v = c as u32;
    if v < 0x80 {
        1
    } else if v < 0x800 {
        2
    } else if v < 0x10000 {
        3
    } else {
        4
    }
}

proof fn lemma_take_bytes_split(s: Seq<char>, i: int, n: int)
    requires
        0 <= i < s.len(),
        utf8_len(s[i]) <= n,
    ensures
        take_bytes(s.skip(i), n) == seq![s[i]] + take_bytes(s.skip(i + 1), n - utf8_len(s[i])),
{
    assert(s.skip(i)[0] == s[i]);
    assert(s.skip(i).drop_first() =~= s.skip(i + 1));
}

/// The characters of the first `n` bytes of the UTF-8 text of `s` (see
/// `take_bytes`), or `None` when the text is shorter than `n` bytes.
pub fn byte_prefix(s: &str, n: usize) -> (r: Option<Vec<char>>)
    requires
        byte_boundary(s@, n as int),
    ensures
        match r {
            Some(v) => utf8_width(s@) >= n && v@ == take_bytes(s@, n as int),
            None => utf8_width(s@) < n,
        },
{
    let cs = chars_of(s);
    let mut v: Vec<char> = Vec::new();
    let mut acc: usize = 0;
    let mut i: usize = 0;
    assert(cs@.skip(0) =~= cs@);
    assert(cs@.take(0) =~= Seq::<char>::empty());
    while i < cs.len() && char_utf8_len(cs[i]) <= n - acc
        invariant
            cs@ == s@,
            i <= cs.len(),
            acc <= n,
            v@ == cs@.take(i as int),
            acc == utf8_width(cs@.take(i as int)),
            take_bytes(cs@, n as int) == v@ + take_bytes(cs@.skip(i as int), n - acc),
        decreases cs.len() - i,
    {
        let w = char_utf8_len(cs[i]);
        proof {
            lemma_take_bytes_split(cs@, i as int, n - acc);
            assert(cs@.take(i + 1).drop_last() =~= cs@.take(i as int));
            assert(v@.push(cs@[i as int]) =~= cs@.take(i + 1));
            assert(v@ + (seq![cs@[i as int]] + take_bytes(cs@.skip(i + 1), n - acc - w)) =~= v@.push(cs@[i as int])
                + take_bytes(cs@.skip(i + 1), n - acc - w));
        }
        v.push(cs[i]);
        acc = acc + w;
        i = i + 1;
    }
    proof {
        if i < cs.len() {
            assert(cs@.skip(i as int)[0] == cs@[i as int]);
        } else {
            assert(cs@.skip(i as int).len() == 0);
            assert(cs@.take(i as int) =~= cs@);
        }
        assert(take_bytes(cs@.skip(i as int), n - acc) =~= Seq::<char>::empty());
        assert(take_bytes(cs@, n as int) =~= v@);
        lemma_utf8_width_prefix(cs@, i as int);
    }
    if acc == n {
        Some(v)
    } else {
        None
    }
}

proof fn lemma_utf8_width_prefix(s: Seq<char>, i: int)
    requires
        0 <= i <= s.len(),
    ensures
        utf8_width(s.take(i)) <= utf8_width(s),
        i < s.len() ==> utf8_width(s.take(i)) + utf8_len(s[i]) <= utf8_width(s),
    decreases s.len() - i,
{
    if i < s.len() {
        lemma_utf8_width_prefix(s, i + 1);
        assert(s.take(i + 1).drop_last() =~= s.take(i));
        assert(s.take(i + 1).last() == s[i]);
    } else {
        assert(s.take(i) =~= s);
    }
}

} // verus!
