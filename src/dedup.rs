//! Dense ids for repeated names, in order of first appearance.
use vstd::prelude::*;

verus! {

/// The table after `name` has been seen: unchanged if it holds the name,
/// else with the name appended.
pub open spec fn interned(table: Seq<Seq<u8>>, name: Seq<u8>) -> Seq<Seq<u8>> {
    if table.contains(name) {
        table
    } else {
        table.push(name)
    }
}

/// The table after seeing `names` in order, starting empty.
pub open spec fn table_of(names: Seq<Seq<u8>>) -> Seq<Seq<u8>>
    decreases names.len(),
{
    if names.len() == 0 {
        Seq::empty()
    } else {
        interned(table_of(names.drop_last()), names.last())
    }
}

/// The id of a name the table holds: its position.
pub open spec fn id_in(table: Seq<Seq<u8>>, name: Seq<u8>) -> int {
    choose|i: int| 0 <= i < table.len() && table[i] == name
}

pub open spec fn distinct(table: Seq<Seq<u8>>) -> bool {
    forall|i: int, j: int| 0 <= i < j < table.len() ==> table[i] != table[j]
}

/// Whether two byte strings are equal.
pub fn bytes_eq(a: &Vec<u8>, b: &Vec<u8>) -> (r: bool)
    ensures
        r == (a@ == b@),
{
    if a.len() != b.len() {
        return false;
    }
    let mut i: usize = 0;
    while i < a.len()
        invariant
            a@.len() == b@.len(),
            i <= a@.len(),
            forall|j: int| 0 <= j < i ==> a@[j] == b@[j],
        decreases a@.len() - i,
    {
        if a[i] != b[i] {
            return false;
        }
        i = i + 1;
    }
    assert(a@ =~= b@);
    true
}

/// A table of names, each given the next id when first seen.
pub struct NameTable {
    names: Vec<Vec<u8>>,
}

impl NameTable {
    pub closed spec fn view(&self) -> Seq<Seq<u8>> {
        self.names@.map_values(|n: Vec<u8>| n@)
    }

    pub fn new() -> (r: NameTable)
        ensures
            r@ == Seq::<Seq<u8>>::empty(),
    {
        let r = NameTable { names: Vec::new() };
        assert(r@ =~= Seq::<Seq<u8>>::empty());
        r
    }

    /// The number of names seen.
    pub fn len(&self) -> (r: usize)
        ensures
            r == self@.len(),
    {
        self.names.len()
    }

    /// Records `name` if it is new. Returns whether it was new, and its id.
    pub fn intern(&mut self, name: &Vec<u8>) -> (r: (bool, usize))
        requires
            distinct(old(self)@),
        ensures
            final(self)@ == interned(old(self)@, name@),
            distinct(final(self)@),
            r.0 == !old(self)@.contains(name@),
            r.1 == id_in(final(self)@, name@),
            r.1 < final(self)@.len(),
    {
        let mut i: usize = 0;
        while i < self.names.len()
            invariant
                i <= self@.len(),
                self@.len() == self.names@.len(),
                self@ == old(self)@,
                distinct(self@),
                forall|j: int| 0 <= j < i ==> self@[j] != name@,
            decreases self@.len() - i,
        {
            if bytes_eq(&self.names[i], name) {
                assert(self@[i as int] == name@);
                proof {
                    lemma_id_unique(self@, name@, i as int);
                }
                return (false, i);
            }
            i = i + 1;
        }
        assert(!self@.contains(name@));
        let ghost before = self@;
        self.names.push(name.clone());
        assert(self@ =~= before.push(name@));
        assert(distinct(self@)) by {
            assert forall|a: int, b: int| 0 <= a < b < self@.len() implies self@[a] != self@[b] by {
                if b == before.len() {
                    assert(!before.contains(name@));
                    assert(before[a] == self@[a]);
                }
            }
        }
        proof {
            lemma_id_unique(self@, name@, i as int);
        }
        (true, i)
    }
}

proof fn lemma_id_unique(table: Seq<Seq<u8>>, name: Seq<u8>, k: int)
    requires
        distinct(table),
        0 <= k < table.len(),
        table[k] == name,
    ensures
        id_in(table, name) == k,
        table.contains(name),
{
    assert(table.contains(name));
}

} // verus!
