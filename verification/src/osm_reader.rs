//! Reading administrative information from the tags of map objects.
use vstd::prelude::*;
use std::collections::BTreeSet;
use crate::order::{lex_le, sort_strings};
use crate::osm::{obj_tags, OsmObj, Relation, Tags};
use crate::places::{I18nProperties, Property};
use crate::text::{
    chars_of, decimal, has_prefix, lemma_parse_decimal, lemma_strs_push, lookup, parse_u32, parse_u32_spec, push_all, split_on,
    split_spec, starts_with, str_eq, string_eq_str, string_from_chars, strs,
};

verus! {

broadcast use {vstd::std_specs::btree::group_btree_axioms, vstd::laws_cmp::group_laws_cmp};

/// Recognizes the relations that are administrative boundaries of chosen levels.
#[derive(Debug)]
pub struct AdminMatcher {
    pub admin_levels: BTreeSet<u32>,
}

/// The level an administrative relation declares, when it has an
/// `admin_level` tag: the tag read as a number, 0 when it cannot be read.
pub open spec fn declared_level(tags: Tags) -> Option<u32> {
    match lookup(tags.entries@, "admin_level"@) {
        Some(v) => match parse_u32_spec(v) {
            Some(l) => Some(l),
            None => Some(0),
        },
        None => None,
    }
}

/// A relation tagged `boundary=administrative` with an `admin_level` tag
/// whose declared level is one of `levels`.
pub open spec fn is_admin_obj(levels: Set<u32>, o: OsmObj) -> bool {
    match o {
        OsmObj::Relation(r) => lookup(r.tags.entries@, "boundary"@) == Some("administrative"@)
            && (declared_level(r.tags) matches Some(l) && levels.contains(l)),
        _ => false,
    }
}

/// The matcher accepts exactly its levels: a relation tagged
/// `boundary=administrative` whose `admin_level` tag is the decimal writing
/// of a level is an administrative boundary if and only if that level is
/// one of the matcher's.
pub proof fn lemma_matcher_accepts_exactly_its_levels(levels: Set<u32>, r: Relation, level: u32)
    requires
        lookup(r.tags.entries@, "boundary"@) == Some("administrative"@),
        lookup(r.tags.entries@, "admin_level"@) == Some(decimal(level as nat)),
    ensures
        is_admin_obj(levels, OsmObj::Relation(r)) == levels.contains(level),
{
    lemma_parse_decimal(level);
}

impl AdminMatcher {
    pub fn new(levels: BTreeSet<u32>) -> (m: AdminMatcher)
        ensures
            m.admin_levels@ == levels@,
    {
        AdminMatcher { admin_levels: levels }
    }

    /// Whether an object is an administrative boundary of one of the levels.
    pub fn is_admin(&self, obj: &OsmObj) -> (r: bool)
        ensures
            r == is_admin_obj(self.admin_levels@, *obj),
    {
        match obj {
            OsmObj::Relation(rel) => {
                let b = match rel.tags.get("boundary") {
                    Some(v) => string_eq_str(v, "administrative"),
                    None => false,
                };
                if !b {
                    return false;
                }
                let level: u32 = match rel.tags.get("admin_level") {
                    Some(v) => match parse_u32(v.as_str()) {
                        Some(l) => l,
                        None => 0,
                    },
                    None => {
                        return false;
                    },
                };
                assert(declared_level(rel.tags) == Some(level));
                self.admin_levels.contains(&level)
            },
            _ => false,
        }
    }
}

/// The zip codes of a region as they appear in its label: nothing when there
/// is none, ` (first-last)` when the first and the last differ, ` (code)`
/// otherwise.
pub open spec fn zip_codes_text(z: Seq<Seq<char>>) -> Seq<char> {
    if z.len() == 0 {
        seq![]
    } else if z[0] != z.last() {
        " ("@ + z[0] + "-"@ + z.last() + ")"@
    } else {
        " ("@ + z[0] + ")"@
    }
}

/// Formats zip codes for a label (see `zip_codes_text`).
pub fn format_zip_codes(zip_codes: &Vec<String>) -> (r: String)
    ensures
        r@ == zip_codes_text(strs(zip_codes@)),
{
    if zip_codes.len() == 0 {
        return String::new();
    }
    let first = &zip_codes[0];
    let last = &zip_codes[zip_codes.len() - 1];
    let mut r = " (".to_owned();
    push_all(&mut r, first.as_str());
    if *first != *last {
        push_all(&mut r, "-");
        push_all(&mut r, last.as_str());
    }
    push_all(&mut r, ")");
    r
}

/// The pieces that are not empty, in order.
pub open spec fn nonempty_pieces(parts: Seq<Seq<char>>) -> Seq<Seq<char>>
    decreases parts.len(),
{
    if parts.len() == 0 {
        seq![]
    } else {
        let p = nonempty_pieces(parts.drop_last());
        if parts.last().len() > 0 {
            p.push(parts.last())
        } else {
            p
        }
    }
}

/// The text that holds the zip codes of an object: its `addr:postcode`
/// tag, else its `postal_code` tag, else nothing.
pub open spec fn zip_source(tags: Tags) -> Seq<char> {
    match lookup(tags.entries@, "addr:postcode"@) {
        Some(v) => v,
        None => match lookup(tags.entries@, "postal_code"@) {
            Some(v) => v,
            None => seq![],
        },
    }
}

/// The zip codes of an object: the non-empty pieces of its zip code text
/// between `;`, in the order of strings.
pub open spec fn tag_zip_codes(tags: Tags) -> Seq<Seq<char>> {
    nonempty_pieces(split_spec(zip_source(tags), ';')).sort_by(lex_le())
}

/// Reads the zip codes of an object (see `tag_zip_codes`).
pub fn read_zip_codes(tags: &Tags) -> (r: Vec<String>)
    ensures
        strs(r@) == tag_zip_codes(*tags),
{
    let src: &str = match tags.get("addr:postcode") {
        Some(v) => v.as_str(),
        None => match tags.get("postal_code") {
            Some(v) => v.as_str(),
            None => "",
        },
    };
    proof {
        reveal_strlit("");
    }
    assert(src@ == zip_source(*tags));
    let parts = split_on(src, ';');
    let mut kept: Vec<String> = Vec::new();
    let mut i: usize = 0;
    while i < parts.len()
        invariant
            i <= parts.len(),
            strs(kept@) == nonempty_pieces(strs(parts@).take(i as int)),
        decreases parts.len() - i,
    {
        assert(strs(parts@).take(i + 1).drop_last() =~= strs(parts@).take(i as int));
        assert(strs(parts@).take(i + 1).last() == parts@[i as int]@);
        if !parts[i].as_str().is_empty() {
            proof {
                lemma_strs_push(kept@, parts@[i as int]);
            }
            kept.push(parts[i].clone());
        }
        i = i + 1;
    }
    assert(strs(parts@).take(parts.len() as int) =~= strs(parts@));
    sort_strings(kept)
}

/// The INSEE code of an object (French municipality code), if it has one.
pub fn read_insee(tags: &Tags) -> (r: Option<&String>)
    ensures
        match r {
            Some(v) => lookup(tags.entries@, "ref:INSEE"@) == Some(v@),
            None => lookup(tags.entries@, "ref:INSEE"@) is None,
        },
{
    tags.get("ref:INSEE")
}

/// A pair of strings seen as a pair of character sequences.
pub open spec fn pair_view(p: (String, String)) -> (Seq<char>, Seq<char>) {
    (p.0@, p.1@)
}

/// Pairs of strings seen as pairs of character sequences.
pub open spec fn pairs_view(v: Seq<(String, String)>) -> Seq<(Seq<char>, Seq<char>)> {
    v.map_values(|p: (String, String)| pair_view(p))
}

/// A tag that holds a code of the object: an ISO 3166 code, a `ref:` code
/// or its wikidata identifier.
pub open spec fn is_code_key(k: Seq<char>) -> bool {
    has_prefix(k, "ISO3166"@) || has_prefix(k, "ref:"@) || k == "wikidata"@
}

/// The code tags of an object, in the order of its tags.
pub open spec fn code_tags(entries: Seq<(String, String)>) -> Seq<(Seq<char>, Seq<char>)>
    decreases entries.len(),
{
    if entries.len() == 0 {
        seq![]
    } else {
        let p = code_tags(entries.drop_last());
        if is_code_key(entries.last().0@) {
            p.push(pair_view(entries.last()))
        } else {
            p
        }
    }
}

/// The codes of an object read from its tags (see `is_code_key`).
pub fn get_osm_codes_from_tags(tags: &Tags) -> (r: Vec<(String, String)>)
    ensures
        pairs_view(r@) == code_tags(tags.entries@),
{
    let es = &tags.entries;
    let mut r: Vec<(String, String)> = Vec::new();
    let mut i: usize = 0;
    while i < es.len()
        invariant
            i <= es.len(),
            pairs_view(r@) == code_tags(es@.take(i as int)),
        decreases es.len() - i,
    {
        assert(es@.take(i + 1).drop_last() =~= es@.take(i as int));
        assert(es@.take(i + 1).last() == es@[i as int]);
        let k = es[i].0.as_str();
        if starts_with(k, "ISO3166") || starts_with(k, "ref:") || str_eq(k, "wikidata") {
            let ghost before = r@;
            r.push((es[i].0.clone(), es[i].1.clone()));
            assert(pairs_view(r@) =~= pairs_view(before).push(pair_view(es@[i as int])));
        }
        i = i + 1;
    }
    assert(es@.take(es.len() as int) =~= es@);
    r
}

/// Properties seen as (key, value) pairs of character sequences.
pub open spec fn props_view(v: Seq<Property>) -> Seq<(Seq<char>, Seq<char>)> {
    v.map_values(|p: Property| (p.key@, p.value@))
}

/// The names of an object in the given languages: each tag `name:<lang>`
/// whose language is one of `langs` gives the property (`<lang>`, value),
/// in the order of the tags.
pub open spec fn lang_names(entries: Seq<(String, String)>, langs: Seq<Seq<char>>) -> Seq<
    (Seq<char>, Seq<char>),
>
    decreases entries.len(),
{
    if entries.len() == 0 {
        seq![]
    } else {
        let p = lang_names(entries.drop_last(), langs);
        let k = entries.last().0@;
        if has_prefix(k, "name:"@) && langs.contains(k.subrange(5, k.len() as int)) {
            p.push((k.subrange(5, k.len() as int), entries.last().1@))
        } else {
            p
        }
    }
}

/// Whether a string is one of the given strings.
pub fn contains_string(v: &Vec<String>, s: &String) -> (r: bool)
    ensures
        r == strs(v@).contains(s@),
{
    let mut i: usize = 0;
    while i < v.len()
        invariant
            i <= v.len(),
            forall|k: int| 0 <= k < i ==> v@[k]@ != s@,
        decreases v.len() - i,
    {
        if v[i] == *s {
            assert(strs(v@)[i as int] == s@);
            return true;
        }
        i = i + 1;
    }
    assert forall|k: int| 0 <= k < strs(v@).len() implies strs(v@)[k] != s@ by {
        assert(strs(v@)[k] == v@[k]@);
    }
    false
}

/// The names of an object in the given languages (see `lang_names`).
pub fn get_names_from_tags(tags: &Tags, langs: &Vec<String>) -> (r: I18nProperties)
    ensures
        props_view(r.0@) == lang_names(tags.entries@, strs(langs@)),
{
    proof {
        reveal_strlit("name:");
    }
    let es = &tags.entries;
    let mut r: Vec<Property> = Vec::new();
    let mut i: usize = 0;
    while i < es.len()
        invariant
            i <= es.len(),
            props_view(r@) == lang_names(es@.take(i as int), strs(langs@)),
            "name:"@.len() == 5,
        decreases es.len() - i,
    {
        assert(es@.take(i + 1).drop_last() =~= es@.take(i as int));
        assert(es@.take(i + 1).last() == es@[i as int]);
        let k = es[i].0.as_str();
        if starts_with(k, "name:") {
            let kc = chars_of(k);
            let mut sub: Vec<char> = Vec::new();
            let mut j: usize = 5;
            while j < kc.len()
                invariant
                    5 <= kc.len(),
                    5 <= j <= kc.len(),
                    sub@ == kc@.subrange(5, j as int),
                decreases kc.len() - j,
            {
                sub.push(kc[j]);
                j = j + 1;
                assert(sub@ =~= kc@.subrange(5, j as int));
            }
            let lang = string_from_chars(&sub);
            if contains_string(langs, &lang) {
                let ghost before = r@;
                r.push(Property { key: lang, value: es[i].1.clone() });
                assert(props_view(r@) =~= props_view(before).push(
                    (kc@.subrange(5, kc.len() as int), es@[i as int].1@),
                ));
            }
        }
        i = i + 1;
    }
    assert(es@.take(es.len() as int) =~= es@);
    I18nProperties(r)
}

} // verus!
