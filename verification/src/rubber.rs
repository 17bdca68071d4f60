//! Counting documents by identifier before they are indexed: the first
//! occurrence of an identifier is kept, later ones raise its count.
use vstd::prelude::*;
use crate::text::str_eq;

verus! {

/// A document that is counted by identifier.
pub trait Incr: Sized {
    /// The identifier of the document.
    spec fn key(&self) -> Seq<char>;

    /// How many times the document was met.
    spec fn count(&self) -> nat;

    /// The document with one more occurrence counted, all else the same.
    spec fn bumped(&self) -> Self;

    fn id(&self) -> (r: &str)
        ensures
            r@ == self.key();

    /// Counts one more occurrence.
    fn incr(&mut self)
        requires
            old(self).count() < u32::MAX,
        ensures
            *final(self) == old(self).bumped(),
            final(self).key() == old(self).key(),
            final(self).count() == old(self).count() + 1;

    /// A copy of the document.
    fn duplicate(&self) -> (r: Self)
        ensures
            r == *self;
}

/// The identifiers and counts of the documents, in order.
pub open spec fn counted<T: Incr>(v: Seq<T>) -> Seq<(Seq<char>, nat)> {
    v.map_values(|t: T| (t.key(), t.count()))
}

/// No identifier occurs twice.
pub open spec fn keys_unique<T: Incr>(v: Seq<T>) -> bool {
    forall|i: int, j: int| 0 <= i < j < v.len() ==> v[i].key() != v[j].key()
}

/// The position of the document with the identifier, if any.
pub open spec fn key_position<T: Incr>(v: Seq<T>, key: Seq<char>) -> Option<int> {
    if exists|i: int| 0 <= i < v.len() && v[i].key() == key {
        Some(choose|i: int| 0 <= i < v.len() && v[i].key() == key)
    } else {
        None
    }
}

/// Adds a document to the store: a copy when its identifier is new, else
/// one more occurrence of the stored document with this identifier.
pub fn upsert<T: Incr>(elt: &T, map: &mut Vec<T>)
    requires
        keys_unique(old(map)@),
        key_position(old(map)@, elt.key()) matches Some(i) ==> old(map)@[i].count() < u32::MAX,
    ensures
        keys_unique(final(map)@),
        match key_position(old(map)@, elt.key()) {
            Some(i) => final(map)@ == old(map)@.update(i, old(map)@[i].bumped()),
            None => final(map)@ == old(map)@.push(*elt),
        },
        match key_position(old(map)@, elt.key()) {
            Some(i) => counted(final(map)@) == counted(old(map)@).update(
                i,
                (elt.key(), old(map)@[i].count() + 1),
            ),
            None => counted(final(map)@) == counted(old(map)@).push((elt.key(), elt.count())),
        },
{
    let ghost orig = map@;
    let key = elt.id();
    let mut i: usize = 0;
    let mut found = false;
    while i < map.len() && !found
        invariant
            map@ == orig,
            key@ == elt.key(),
            i <= map.len(),
            found ==> i < map.len() && map@[i as int].key() == key@,
            forall|j: int| 0 <= j < i ==> map@[j].key() != key@,
        decreases map.len() - i, (if found { 0int } else { 1int }),
    {
        if str_eq(map[i].id(), key) {
            found = true;
        } else {
            i = i + 1;
        }
    }
    if found {
        assert(key_position(orig, elt.key()) == Some(i as int)) by {
            let c = choose|c: int| 0 <= c < orig.len() && orig[c].key() == elt.key();
            assert(c == i);
        }
        let mut t = map.remove(i);
        t.incr();
        map.insert(i, t);
        assert(map@ =~= orig.update(i as int, orig[i as int].bumped()));
        assert(counted(map@) =~= counted(orig).update(i as int, (elt.key(), orig[i as int].count() + 1)));
        assert(keys_unique(map@)) by {
            assert forall|a: int, b: int| 0 <= a < b < map@.len() implies map@[a].key() != map@[b].key() by {
                assert(map@[a].key() == orig[a].key());
                assert(map@[b].key() == orig[b].key());
            }
        }
    } else {
        assert(key_position(orig, elt.key()) is None);
        map.push(elt.duplicate());
        assert(map@ =~= orig.push(*elt));
        assert(counted(map@) =~= counted(orig).push((elt.key(), elt.count())));
        assert(keys_unique(map@)) by {
            assert forall|a: int, b: int| 0 <= a < b < map@.len() implies map@[a].key() != map@[b].key() by {
                assert(map@[a] == orig[a]);
                if b < orig.len() {
                    assert(map@[b] == orig[b]);
                }
            }
        }
    }
}

/// A region counted by the addresses that refer to it.
#[derive(Debug, Clone)]
pub struct AdminEntry {
    pub id: String,
    pub level: u32,
    pub name: String,
    pub zip_code: String,
    pub weight: u32,
}

impl Incr for AdminEntry {
    open spec fn key(&self) -> Seq<char> {
        self.id@
    }

    open spec fn count(&self) -> nat {
        self.weight as nat
    }

    open spec fn bumped(&self) -> Self {
        AdminEntry { weight: (self.weight + 1) as u32, ..*self }
    }

    fn id(&self) -> (r: &str) {
        self.id.as_str()
    }

    fn incr(&mut self) {
        self.weight = self.weight + 1;
    }

    fn duplicate(&self) -> (r: Self) {
        AdminEntry {
            id: self.id.clone(),
            level: self.level,
            name: self.name.clone(),
            zip_code: self.zip_code.clone(),
            weight: self.weight,
        }
    }
}

/// A street counted by the addresses that refer to it.
#[derive(Debug, Clone)]
pub struct StreetEntry {
    pub id: String,
    pub street_name: String,
    pub name: String,
    pub administrative_region: AdminEntry,
    pub weight: u32,
}

impl Incr for StreetEntry {
    open spec fn key(&self) -> Seq<char> {
        self.id@
    }

    open spec fn count(&self) -> nat {
        self.weight as nat
    }

    open spec fn bumped(&self) -> Self {
        StreetEntry { weight: (self.weight + 1) as u32, ..*self }
    }

    fn id(&self) -> (r: &str) {
        self.id.as_str()
    }

    fn incr(&mut self) {
        self.weight = self.weight + 1;
    }

    fn duplicate(&self) -> (r: Self) {
        StreetEntry {
            id: self.id.clone(),
            street_name: self.street_name.clone(),
            name: self.name.clone(),
            administrative_region: self.administrative_region.duplicate(),
            weight: self.weight,
        }
    }
}

} // verus!
