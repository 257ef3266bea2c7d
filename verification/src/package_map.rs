//! A map from package names to values, which remembers the order in which names were added.

use crate::identifier::{NameView, PackageName};
use fxhash::{FxHashMap, FxHasher};
use std::hash::BuildHasherDefault;
use vstd::prelude::*;

verus! {

/// `fxhash::FxHasher`, the hash function of the tables.
#[verifier::external_type_specification]
#[verifier::external_body]
pub struct ExFxHasher(FxHasher);

/// `std::hash::BuildHasherDefault`, which makes the hash function of a table.
#[verifier::external_type_specification]
#[verifier::external_body]
#[verifier::reject_recursive_types(H)]
pub struct ExBuildHasherDefault<H>(BuildHasherDefault<H>);

/// What a table of positions holds: a position for each namespace and name that is in it.
pub uninterp spec fn positions(table: FxHashMap<(String, String), usize>) -> Map<
    (Seq<char>, Seq<char>),
    usize,
>;

/// Calls `default` of `fxhash::FxHashMap`, which makes an empty table.
#[verifier::external_body]
fn table_new() -> (table: FxHashMap<(String, String), usize>)
    ensures
        positions(table).dom() == Set::<(Seq<char>, Seq<char>)>::empty(),
{
    FxHashMap::default()
}

/// Calls `get` of `fxhash::FxHashMap`: the position that the table holds for a key, if any. Two
/// keys are the same to the table if their texts are.
#[verifier::external_body]
fn table_get(table: &FxHashMap<(String, String), usize>, key: &(String, String)) -> (position: Option<usize>)
    ensures
        position is Some <==> positions(*table).contains_key(key@),
        position matches Some(p) ==> p == positions(*table)[key@],
{
    table.get(key).copied()
}

/// Calls `insert` of `fxhash::FxHashMap`, which sets the position of a key and leaves the other
/// keys alone.
#[verifier::external_body]
fn table_insert(table: &mut FxHashMap<(String, String), usize>, key: (String, String), position: usize)
    ensures
        positions(*final(table)) == positions(*old(table)).insert(key@, position),
{
    table.insert(key, position);
}

/// Calls `remove` of `fxhash::FxHashMap`, which takes a key out and leaves the other keys alone.
#[verifier::external_body]
fn table_remove(table: &mut FxHashMap<(String, String), usize>, key: &(String, String))
    ensures
        positions(*final(table)) == positions(*old(table)).remove(key@),
{
    table.remove(key);
}

/// A map from package names to values. Its names stand in a row: a new name is added at the end,
/// and the last name fills the gap that a removed one leaves.
#[derive(Debug)]
pub struct PackageMap<V> {
    /// Where in the row each name stands.
    table: FxHashMap<(String, String), usize>,
    /// The names, each with its value.
    entries: Vec<(PackageName, V)>,
}

impl<V> View for PackageMap<V> {
    type V = Map<NameView, V>;

    closed spec fn view(&self) -> Map<NameView, V> {
        Map::new(
            |name: NameView| positions(self.table).contains_key(name),
            |name: NameView| self.entries@[positions(self.table)[name] as int].1,
        )
    }
}

impl<V> PackageMap<V> {
    /// The names in the order in which they stand.
    pub closed spec fn names(self) -> Seq<NameView> {
        Seq::new(self.entries@.len(), |i: int| self.entries@[i].0@)
    }

    /// Whether every name stands where the table says, and no other name is in the table.
    pub closed spec fn wf(self) -> bool {
        &&& forall|i: int|
            0 <= i < self.entries@.len() ==> positions(self.table).contains_key(
                #[trigger] self.entries@[i].0@,
            ) && positions(self.table)[self.entries@[i].0@] == i
        &&& forall|name: NameView| #[trigger]
            positions(self.table).contains_key(name) ==> positions(self.table)[name]
                < self.entries@.len() && self.entries@[positions(self.table)[name] as int].0@ == name
    }

    /// Each name stands once, and the names that stand are those of the map.
    pub proof fn lemma_names(self)
        requires
            self.wf(),
        ensures
            self.names().no_duplicates(),
            self@.dom().finite(),
            self@.dom() == self.names().to_set(),
            self@.dom().len() == self.names().len(),
            forall|i: int| 0 <= i < self.names().len() ==> self@.contains_key(#[trigger] self.names()[i]),
    {
        let names = self.names();
        assert forall|i: int, j: int| 0 <= i < names.len() && 0 <= j < names.len() && i != j implies names[i]
            != names[j] by {
            assert(positions(self.table)[self.entries@[i].0@] == i);
            assert(positions(self.table)[self.entries@[j].0@] == j);
        }
        assert forall|i: int| 0 <= i < names.len() implies self@.contains_key(#[trigger] names[i]) by {
            assert(positions(self.table).contains_key(self.entries@[i].0@));
        }
        assert forall|name: NameView| self@.contains_key(name) implies names.contains(name) by {
            assert(names[positions(self.table)[name] as int] == name);
        }
        assert(self@.dom() =~= names.to_set());
        names.unique_seq_to_set();
    }

    /// Creates an empty map.
    pub fn new() -> (map: Self)
        ensures
            map.wf(),
            map@ == Map::<NameView, V>::empty(),
            map.names() == Seq::<NameView>::empty(),
    {
        let map = PackageMap { table: table_new(), entries: Vec::new() };
        assert(map@ =~= Map::<NameView, V>::empty());
        assert(map.names() =~= Seq::<NameView>::empty());
        map
    }

    /// The number of names.
    pub fn len(&self) -> (len: usize)
        ensures
            len == self.names().len(),
    {
        self.entries.len()
    }

    /// Gets the name at a place in the row.
    pub fn name_at(&self, i: usize) -> (name: &PackageName)
        requires
            i < self.names().len(),
        ensures
            name@ == self.names()[i as int],
    {
        &self.entries[i].0
    }

    /// Gets the value of the name at a place in the row.
    pub fn value_at(&self, i: usize) -> (value: &V)
        requires
            self.wf(),
            i < self.names().len(),
        ensures
            self@.contains_key(self.names()[i as int]),
            *value == self@[self.names()[i as int]],
    {
        assert(positions(self.table).contains_key(self.entries@[i as int].0@));
        &self.entries[i].1
    }

    /// Whether the map holds a name.
    pub fn contains(&self, name: &PackageName) -> (found: bool)
        ensures
            found == self@.contains_key(name@),
    {
        table_get(&self.table, name.key()).is_some()
    }

    /// Gets the value of a name, if the map holds it.
    pub fn get(&self, name: &PackageName) -> (value: Option<&V>)
        requires
            self.wf(),
        ensures
            value is Some <==> self@.contains_key(name@),
            value matches Some(v) ==> *v == self@[name@],
    {
        match table_get(&self.table, name.key()) {
            Some(i) => Some(&self.entries[i].1),
            None => None,
        }
    }

    /// Sets the value of a name, and gives back the one that it had, if any.
    pub fn insert(&mut self, name: PackageName, value: V) -> (replaced: Option<V>)
        requires
            old(self).wf(),
        ensures
            final(self).wf(),
            final(self)@ == old(self)@.insert(name@, value),
            replaced is Some <==> old(self)@.contains_key(name@),
            replaced matches Some(v) ==> v == old(self)@[name@],
            final(self).names() == (if old(self)@.contains_key(name@) {
                old(self).names()
            } else {
                old(self).names().push(name@)
            }),
    {
        match table_get(&self.table, name.key()) {
            Some(i) => {
                let mut fresh = value;
                std::mem::swap(&mut self.entries[i].1, &mut fresh);
                proof {
                    assert(self.entries@[i as int].0@ == name@);
                    assert forall|j: int| 0 <= j < self.entries@.len() implies #[trigger] self.entries@[j].0@
                        == old(self).entries@[j].0@ by {}
                    assert(self.names() =~= old(self).names());
                    assert(self@ =~= old(self)@.insert(name@, value));
                }
                Some(fresh)
            },
            None => {
                let i = self.entries.len();
                table_insert(&mut self.table, (name.key().0.clone(), name.key().1.clone()), i);
                self.entries.push((name, value));
                proof {
                    assert forall|j: int| 0 <= j < i implies #[trigger] self.entries@[j] == old(self).entries@[j] by {}
                    assert(self.names() =~= old(self).names().push(name@));
                    assert(self@ =~= old(self)@.insert(name@, value));
                }
                None
            },
        }
    }

    /// Gives access to the value of a name, if the map holds it.
    pub fn get_mut(&mut self, name: &PackageName) -> (value: Option<&mut V>)
        requires
            old(self).wf(),
        ensures
            value is Some <==> old(self)@.contains_key(name@),
            value matches Some(v) ==> {
                &&& *v == old(self)@[name@]
                &&& final(self)@ == old(self)@.insert(name@, *final(v))
            },
            value is None ==> final(self)@ == old(self)@,
            final(self).wf(),
            final(self).names() == old(self).names(),
    {
        match table_get(&self.table, name.key()) {
            Some(i) => Some(&mut self.entries[i].1),
            None => None,
        }
    }

    /// Takes out a name, and gives back the value that it had, if any.
    pub fn remove(&mut self, name: &PackageName) -> (removed: Option<V>)
        requires
            old(self).wf(),
        ensures
            final(self).wf(),
            final(self)@ == old(self)@.remove(name@),
            removed is Some <==> old(self)@.contains_key(name@),
            removed matches Some(v) ==> v == old(self)@[name@],
    {
        match table_get(&self.table, name.key()) {
            Some(i) => {
                table_remove(&mut self.table, name.key());
                let (_, value) = self.entries.swap_remove(i);
                if i < self.entries.len() {
                    let moved = self.entries[i].0.key();
                    table_insert(&mut self.table, (moved.0.clone(), moved.1.clone()), i);
                }
                proof {
                    assert(self@ =~= old(self)@.remove(name@));
                }
                Some(value)
            },
            None => {
                assert(self@ =~= old(self)@.remove(name@));
                None
            },
        }
    }
}

} // verus!
