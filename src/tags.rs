//! The ordered, uniquely keyed store of a LOD's named byte blobs.
use vstd::prelude::*;
use linked_hash_map::LinkedHashMap;

verus! {

#[verifier::external_type_specification]
#[verifier::external_body]
#[verifier::reject_recursive_types(K)]
#[verifier::reject_recursive_types(V)]
#[verifier::reject_recursive_types(S)]
pub struct ExLinkedHashMap<K, V, S>(LinkedHashMap<K, V, S>);

/// The entries of a linked hash map in insertion order.
pub uninterp spec fn tagg_entries(m: LinkedHashMap<Vec<u8>, Vec<u8>>) -> Seq<(Seq<u8>, Seq<u8>)>;

/// Relies on LinkedHashMap::new: the map starts empty.
#[verifier::external_body]
fn tagg_map_new() -> (r: LinkedHashMap<Vec<u8>, Vec<u8>>)
    ensures
        tagg_entries(r) == Seq::<(Seq<u8>, Seq<u8>)>::empty(),
{
    LinkedHashMap::new()
}

/// Relies on LinkedHashMap::contains_key: true exactly when an entry has the key.
#[verifier::external_body]
fn tagg_map_contains(m: &LinkedHashMap<Vec<u8>, Vec<u8>>, k: &Vec<u8>) -> (r: bool)
    ensures
        r == (exists|i: int| 0 <= i < tagg_entries(*m).len() && (#[trigger] tagg_entries(*m)[i]).0 == k@),
{
    m.contains_key(k)
}

/// Relies on LinkedHashMap::insert: a key not yet present is linked in after
/// every existing entry.
#[verifier::external_body]
fn tagg_map_insert(m: &mut LinkedHashMap<Vec<u8>, Vec<u8>>, k: Vec<u8>, v: Vec<u8>)
    requires
        forall|i: int| 0 <= i < tagg_entries(*old(m)).len() ==> (#[trigger] tagg_entries(*old(m))[i]).0 != k@,
    ensures
        tagg_entries(*final(m)) == tagg_entries(*old(m)).push((k@, v@)),
{
    m.insert(k, v);
}

/// Relies on LinkedHashMap::iter: entries come out in insertion order.
#[verifier::external_body]
fn tagg_map_pairs(m: &LinkedHashMap<Vec<u8>, Vec<u8>>) -> (r: Vec<(Vec<u8>, Vec<u8>)>)
    ensures
        r@.len() == tagg_entries(*m).len(),
        forall|i: int|
            0 <= i < r@.len() ==> (#[trigger] r@[i]).0@ == tagg_entries(*m)[i].0 && r@[i].1@
                == tagg_entries(*m)[i].1,
{
    m.iter().map(|(k, v)| (k.clone(), v.clone())).collect()
}

/// The reserved key of the record that closes a LOD: `#EndOfFile#`.
pub open spec fn sentinel() -> Seq<u8> {
    seq![35u8, 69u8, 110u8, 100u8, 79u8, 102u8, 70u8, 105u8, 108u8, 101u8, 35u8]
}

/// Whether `name` is the reserved key.
pub fn is_sentinel(name: &Vec<u8>) -> (r: bool)
    ensures
        r == (name@ == sentinel()),
{
    let s: Vec<u8> = vec![35u8, 69u8, 110u8, 100u8, 79u8, 102u8, 70u8, 105u8, 108u8, 101u8, 35u8];
    if name.len() != s.len() {
        return false;
    }
    let mut i: usize = 0;
    while i < s.len()
        invariant
            name@.len() == s@.len(),
            s@ == sentinel(),
            i <= s@.len(),
            forall|j: int| 0 <= j < i ==> name@[j] == s@[j],
        decreases s@.len() - i,
    {
        if name[i] != s[i] {
            return false;
        }
        i = i + 1;
    }
    assert(name@ =~= s@);
    true
}

/// Whether a key is a name a tag can carry in text: not the reserved key,
/// and free of the line break and of `=`.
pub open spec fn tag_name_ok(name: Seq<u8>) -> bool {
    name != sentinel() && forall|i: int| 0 <= i < name.len() ==> #[trigger] name[i] != 10u8 && name[i] != 61u8
}

pub open spec fn keys_unique(e: Seq<(Seq<u8>, Seq<u8>)>) -> bool {
    forall|i: int, j: int| 0 <= i < j < e.len() ==> (#[trigger] e[i]).0 != (#[trigger] e[j]).0
}

/// Whether `name` can key a tag.
pub fn tag_name_valid(name: &Vec<u8>) -> (r: bool)
    ensures
        r == tag_name_ok(name@),
{
    if is_sentinel(name) {
        return false;
    }
    let mut i: usize = 0;
    while i < name.len()
        invariant
            i <= name@.len(),
            forall|j: int| 0 <= j < i ==> #[trigger] name@[j] != 10u8 && name@[j] != 61u8,
        decreases name@.len() - i,
    {
        if name[i] == 10 || name[i] == 61 {
            return false;
        }
        i = i + 1;
    }
    true
}

/// Why a tag was refused.
#[derive(Debug, Clone, Copy, PartialEq, Eq, Structural)]
pub enum TagError {
    /// The key is already in the store.
    Duplicate,
    /// The key is the reserved key, or holds a character a record cannot carry.
    BadName,
}

/// Named byte blobs in insertion order, each key at most once.
pub struct TagStore {
    map: LinkedHashMap<Vec<u8>, Vec<u8>>,
}

impl TagStore {
    /// The entries, in insertion order.
    pub closed spec fn entries(&self) -> Seq<(Seq<u8>, Seq<u8>)> {
        tagg_entries(self.map)
    }

    pub open spec fn wf(&self) -> bool {
        &&& keys_unique(self.entries())
        &&& forall|i: int| 0 <= i < self.entries().len() ==> tag_name_ok(#[trigger] self.entries()[i].0)
    }

    pub open spec fn has_key(&self, name: Seq<u8>) -> bool {
        exists|i: int| 0 <= i < self.entries().len() && (#[trigger] self.entries()[i]).0 == name
    }

    pub fn new() -> (r: TagStore)
        ensures
            r.entries() == Seq::<(Seq<u8>, Seq<u8>)>::empty(),
            r.wf(),
    {
        TagStore { map: tagg_map_new() }
    }

    /// Whether an entry has the key `name`.
    pub fn contains(&self, name: &Vec<u8>) -> (r: bool)
        ensures
            r == self.has_key(name@),
    {
        let r = tagg_map_contains(&self.map, name);
        assert(self.entries() == tagg_entries(self.map));
        proof {
            if r {
                let i = choose|i: int| 0 <= i < tagg_entries(self.map).len() && (#[trigger] tagg_entries(self.map)[i]).0 == name@;
                assert(self.entries()[i].0 == name@);
            }
        }
        r
    }

    /// Appends a new entry; a key already present, or one that is not a
    /// valid tag name, is refused and the store is left as it was.
    pub fn put(&mut self, name: Vec<u8>, bytes: Vec<u8>) -> (r: Result<(), TagError>)
        requires
            old(self).wf(),
        ensures
            final(self).wf(),
            !tag_name_ok(name@) ==> r == Err::<(), TagError>(TagError::BadName) && final(self).entries() == old(self).entries(),
            tag_name_ok(name@) && old(self).has_key(name@) ==> r == Err::<(), TagError>(TagError::Duplicate)
                && final(self).entries() == old(self).entries(),
            tag_name_ok(name@) && !old(self).has_key(name@) ==> r is Ok && final(self).entries()
                == old(self).entries().push((name@, bytes@)),
    {
        if !tag_name_valid(&name) {
            return Err(TagError::BadName);
        }
        if tagg_map_contains(&self.map, &name) {
            return Err(TagError::Duplicate);
        }
        let ghost before = self.entries();
        let ghost key = name@;
        tagg_map_insert(&mut self.map, name, bytes);
        assert(self.entries().last().0 == key);
        assert forall|i: int| 0 <= i < self.entries().len() implies tag_name_ok(#[trigger] self.entries()[i].0) by {
            if i < before.len() {
                assert(self.entries()[i] == before[i]);
            }
        }
        assert forall|i: int, j: int| 0 <= i < j < self.entries().len() implies (#[trigger] self.entries()[i]).0
            != (#[trigger] self.entries()[j]).0 by {
            assert(self.entries()[i] == before[i]);
            if j < before.len() {
                assert(self.entries()[j] == before[j]);
            }
        }
        Ok(())
    }

    /// The entries as owned pairs, in insertion order.
    pub fn pairs(&self) -> (r: Vec<(Vec<u8>, Vec<u8>)>)
        ensures
            r@.len() == self.entries().len(),
            forall|i: int|
                0 <= i < r@.len() ==> (#[trigger] r@[i]).0@ == self.entries()[i].0 && r@[i].1@
                    == self.entries()[i].1,
    {
        tagg_map_pairs(&self.map)
    }
}

} // verus!
