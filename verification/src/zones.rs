//! Administrative regions made from the zones of a cosmogony file.
use vstd::prelude::*;
use std::collections::BTreeMap;
use crate::osm::Tags;
use crate::osm_reader::{
    code_tags, contains_string, get_names_from_tags, get_osm_codes_from_tags, lang_names, pairs_view,
    props_view, read_insee, read_zip_codes, tag_zip_codes,
};
use crate::places::{country_code_key, get_country_code, Admin, I18nProperties, Property, ZoneType};
use crate::text::{lookup, opt_str, push_all, strs};

verus! {

broadcast use {vstd::std_specs::btree::group_btree_axioms, vstd::laws_cmp::group_laws_cmp};

/// A zone of a cosmogony file, as far as regions are made from it (its
/// geometry and its population are read by the caller).
#[derive(Debug, Clone)]
pub struct Zone {
    pub id: usize,
    pub osm_id: String,
    pub admin_level: Option<u32>,
    pub zone_type: Option<ZoneType>,
    pub name: String,
    pub label: String,
    pub international_labels: Vec<(String, String)>,
    pub tags: Tags,
    pub parent: Option<usize>,
}

/// The identifier of the region made from the zone of an OpenStreetMap identifier.
pub open spec fn admin_id_text(osm_id: Seq<char>) -> Seq<char> {
    "admin:osm:"@ + osm_id
}

fn format_admin_id(osm_id: &String) -> (r: String)
    ensures
        r@ == admin_id_text(osm_id@),
{
    let mut r = "admin:osm:".to_owned();
    push_all(&mut r, osm_id.as_str());
    r
}

/// The labels given in the chosen languages, in order.
pub open spec fn lang_labels(labels: Seq<(String, String)>, langs: Seq<Seq<char>>) -> Seq<(Seq<char>, Seq<char>)>
    decreases labels.len(),
{
    if labels.len() == 0 {
        seq![]
    } else {
        let p = lang_labels(labels.drop_last(), langs);
        if langs.contains(labels.last().0@) {
            p.push((labels.last().0@, labels.last().1@))
        } else {
            p
        }
    }
}

/// The parent identifier of a zone's region: that of the parent zone, when
/// it has one that is known.
pub open spec fn parent_admin_id(parent: Option<usize>, ids: Map<usize, (String, Option<String>)>) -> Option<Seq<char>> {
    match parent {
        Some(p) => if ids.contains_key(p) {
            Some(admin_id_text(ids[p].0@))
        } else {
            None
        },
        None => None,
    }
}

impl Zone {
    /// The region made from the zone, with the given weight. `zones_osm_id`
    /// gives the OpenStreetMap identifier of each zone.
    pub fn into_admin<W>(
        self,
        zones_osm_id: &BTreeMap<usize, (String, Option<String>)>,
        langs: &Vec<String>,
        weight: W,
    ) -> (a: Admin<W>)
        requires
            zones_osm_id@.contains_key(self.id),
        ensures
            a.id@ == admin_id_text(zones_osm_id@[self.id].0@),
            a.insee@ == (match lookup(self.tags.entries@, "ref:INSEE"@) {
                Some(v) => v,
                None => seq![],
            }),
            a.level == (match self.admin_level {
                Some(l) => l,
                None => 0,
            }),
            a.name == self.name,
            a.label == self.label,
            strs(a.zip_codes@) == tag_zip_codes(self.tags),
            a.weight == weight,
            a.zone_type == self.zone_type,
            opt_str(a.parent_id) == parent_admin_id(self.parent, zones_osm_id@),
            pairs_view(a.codes@) == code_tags(self.tags.entries@),
            strs(a.country_codes@) == (match lookup(a.codes@, country_code_key()) {
                Some(c) => seq![c],
                None => seq![],
            }),
            props_view(a.names.0@) == lang_names(self.tags.entries@, strs(langs@)),
            props_view(a.labels.0@) == lang_labels(self.international_labels@, strs(langs@)),
    {
        let insee = match read_insee(&self.tags) {
            Some(v) => v.clone(),
            None => String::new(),
        };
        let zip_codes = read_zip_codes(&self.tags);
        let parent_id = match self.parent {
            Some(p) => match zones_osm_id.get(&p) {
                Some(e) => Some(format_admin_id(&e.0)),
                None => None,
            },
            None => None,
        };
        let id = match zones_osm_id.get(&self.id) {
            Some(e) => format_admin_id(&e.0),
            None => String::new(),
        };
        let codes = get_osm_codes_from_tags(&self.tags);
        let country_codes = match get_country_code(&codes) {
            Some(c) => {
                let v = vec![c];
                assert(strs(v@) =~= seq![v@[0]@]);
                v
            },
            None => {
                let v: Vec<String> = Vec::new();
                assert(strs(v@) =~= seq![]);
                v
            },
        };
        let names = get_names_from_tags(&self.tags, langs);
        let ls = &self.international_labels;
        let mut labels: Vec<Property> = Vec::new();
        let mut i: usize = 0;
        while i < ls.len()
            invariant
                i <= ls.len(),
                props_view(labels@) == lang_labels(ls@.take(i as int), strs(langs@)),
            decreases ls.len() - i,
        {
            assert(ls@.take(i + 1).drop_last() =~= ls@.take(i as int));
            assert(ls@.take(i + 1).last() == ls@[i as int]);
            if contains_string(langs, &ls[i].0) {
                let ghost before = labels@;
                labels.push(Property { key: ls[i].0.clone(), value: ls[i].1.clone() });
                assert(props_view(labels@) =~= props_view(before).push((ls@[i as int].0@, ls@[i as int].1@)));
            }
            i = i + 1;
        }
        assert(ls@.take(ls.len() as int) =~= ls@);
        Admin {
            id,
            level: match self.admin_level {
                Some(l) => l,
                None => 0,
            },
            name: self.name,
            label: self.label,
            zip_codes,
            weight,
            insee,
            zone_type: self.zone_type,
            parent_id,
            codes,
            country_codes,
            names,
            labels: I18nProperties(labels),
        }
    }
}

/// The position of the first region with the identifier.
pub open spec fn admin_index<W>(all: Seq<Admin<W>>, id: Seq<char>) -> Option<int>
    decreases all.len(),
{
    if all.len() == 0 {
        None
    } else if all[0].id@ == id {
        Some(0)
    } else {
        match admin_index(all.drop_first(), id) {
            Some(i) => Some(i + 1),
            None => None,
        }
    }
}

/// The identifiers met going up the parents from `cur`, within `fuel`
/// steps: each parent identifier, until one is unknown or has no parent.
pub open spec fn parent_chain<W>(all: Seq<Admin<W>>, cur: Option<Seq<char>>, fuel: nat) -> Seq<Seq<char>>
    decreases fuel,
{
    match cur {
        None => seq![],
        Some(p) => if fuel == 0 {
            seq![]
        } else {
            seq![p] + match admin_index(all, p) {
                Some(i) => parent_chain(all, opt_str(all[i].parent_id), (fuel - 1) as nat),
                None => seq![],
            }
        },
    }
}

/// Going up the parents from `cur` ends within `fuel` steps (it does not
/// run round a cycle).
pub open spec fn chain_ends<W>(all: Seq<Admin<W>>, cur: Option<Seq<char>>, fuel: nat) -> bool
    decreases fuel,
{
    match cur {
        None => true,
        Some(p) => fuel > 0 && match admin_index(all, p) {
            Some(i) => chain_ends(all, opt_str(all[i].parent_id), (fuel - 1) as nat),
            None => true,
        },
    }
}

/// The positions of the known regions among identifiers, in order.
pub open spec fn known_regions<W>(all: Seq<Admin<W>>, ids: Seq<Seq<char>>) -> Seq<int>
    decreases ids.len(),
{
    if ids.len() == 0 {
        seq![]
    } else {
        let p = known_regions(all, ids.drop_last());
        match admin_index(all, ids.last()) {
            Some(i) => p.push(i),
            None => p,
        }
    }
}

proof fn lemma_admin_index_bounds<W>(all: Seq<Admin<W>>, id: Seq<char>)
    ensures
        admin_index(all, id) matches Some(i) ==> 0 <= i < all.len() && all[i].id@ == id,
    decreases all.len(),
{
    if all.len() > 0 && all[0].id@ != id {
        lemma_admin_index_bounds(all.drop_first(), id);
    }
}

proof fn lemma_admin_index_first<W>(all: Seq<Admin<W>>, id: Seq<char>, k: int)
    requires
        0 <= k < all.len(),
        all[k].id@ == id,
        forall|j: int| 0 <= j < k ==> all[j].id@ != id,
    ensures
        admin_index(all, id) == Some(k),
    decreases all.len(),
{
    if k > 0 {
        lemma_admin_index_first(all.drop_first(), id, k - 1);
    }
}

proof fn lemma_admin_index_none<W>(all: Seq<Admin<W>>, id: Seq<char>)
    requires
        forall|j: int| 0 <= j < all.len() ==> all[j].id@ != id,
    ensures
        admin_index(all, id) is None,
    decreases all.len(),
{
    if all.len() > 0 {
        lemma_admin_index_none(all.drop_first(), id);
    }
}

fn find_admin_index<W>(all: &Vec<Admin<W>>, id: &String) -> (r: Option<usize>)
    ensures
        match r {
            Some(i) => admin_index(all@, id@) == Some(i as int),
            None => admin_index(all@, id@) is None,
        },
{
    let mut i: usize = 0;
    while i < all.len()
        invariant
            i <= all.len(),
            forall|j: int| 0 <= j < i ==> all@[j].id@ != id@,
        decreases all.len() - i,
    {
        if all[i].id == *id {
            proof {
                lemma_admin_index_first(all@, id@, i as int);
            }
            return Some(i);
        }
        i = i + 1;
    }
    proof {
        lemma_admin_index_none(all@, id@);
    }
    None
}

/// The regions that encompass a region whose parent is `parent`: the known
/// regions among the identifiers met going up the parents, in order.
pub fn parent_regions<W>(parent: &Option<String>, all: &Vec<Admin<W>>) -> (r: Vec<usize>)
    requires
        chain_ends(all@, opt_str(*parent), (all.len() + 1) as nat),
    ensures
        r@.map_values(|x: usize| x as int) == known_regions(all@, parent_chain(all@, opt_str(*parent), (all.len() + 1) as nat)),
{
    let ghost start = opt_str(*parent);
    let ghost full = parent_chain(all@, start, (all.len() + 1) as nat);
    let mut ids: Vec<String> = Vec::new();
    let mut cur: Option<String> = match parent {
        Some(p) => Some(p.clone()),
        None => None,
    };
    let ghost mut fuel: nat = (all.len() + 1) as nat;
    loop
        invariant_except_break
            chain_ends(all@, opt_str(cur), fuel),
            full == strs(ids@) + parent_chain(all@, opt_str(cur), fuel),
        ensures
            full == strs(ids@),
        decreases fuel,
    {
        match cur {
            None => {
                assert(strs(ids@) + seq![] =~= strs(ids@));
                break;
            },
            Some(p) => {
                let ghost rest = parent_chain(all@, Some(p@), fuel);
                proof {
                    crate::text::lemma_strs_push(ids@, p);
                }
                ids.push(p.clone());
                match find_admin_index(all, &p) {
                    Some(i) => {
                        proof {
                            lemma_admin_index_bounds(all@, p@);
                        }
                        let next = match &all[i].parent_id {
                            Some(q) => Some(q.clone()),
                            None => None,
                        };
                        assert(strs(ids@) + parent_chain(all@, opt_str(next), (fuel - 1) as nat) =~= full);
                        cur = next;
                        proof {
                            fuel = (fuel - 1) as nat;
                        }
                    },
                    None => {
                        assert(strs(ids@) =~= full);
                        break;
                    },
                }
            },
        }
    }
    let mut r: Vec<usize> = Vec::new();
    let mut k: usize = 0;
    while k < ids.len()
        invariant
            k <= ids.len(),
            full == strs(ids@),
            r@.map_values(|x: usize| x as int) == known_regions(all@, full.take(k as int)),
        decreases ids.len() - k,
    {
        assert(full.take(k + 1).drop_last() =~= full.take(k as int));
        assert(full.take(k + 1).last() == ids@[k as int]@);
        match find_admin_index(all, &ids[k]) {
            Some(i) => {
                let ghost before = r@;
                r.push(i);
                assert(r@.map_values(|x: usize| x as int) =~= before.map_values(|x: usize| x as int).push(i as int));
            },
            None => {},
        }
        k = k + 1;
    }
    assert(full.take(ids.len() as int) =~= full);
    r
}

} // verus!
