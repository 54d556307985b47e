//! Hash tables.
//!
//! The genome finds a gene by its stable identifier through a hash map, and
//! the population remembers which genomes it has already taken in a hash
//! set. Both come from the `hashbrown` crate. Its types cannot be described
//! to the verifier directly, so each is held in a struct whose inside the
//! verifier does not read, and every method the library calls is a small
//! function here whose contract is believed. The contracts speak of what a
//! table holds as a mathematical map or set.

use vstd::prelude::*;

verus! {

/// A `hashbrown::HashMap` from identifier to position.
#[verifier::external_body]
pub struct IdTable {
    slots: hashbrown::HashMap<usize, usize>,
}

/// What an [`IdTable`] holds.
pub uninterp spec fn id_table_entries(table: IdTable) -> Map<usize, usize>;

/// A `hashbrown::HashSet` of identifiers.
#[verifier::external_body]
pub struct IdSet {
    items: hashbrown::HashSet<usize>,
}

/// What an [`IdSet`] holds.
pub uninterp spec fn id_set_items(set: IdSet) -> Set<usize>;

/// Whether a set is finite and has exactly `n` members.
pub open spec fn has_size(members: Set<usize>, n: usize) -> bool {
    members.finite() && members.len() == n
}

/// The map with no entry.
pub open spec fn no_entries() -> Map<usize, usize> {
    Map::empty()
}

/// The set with no item.
pub open spec fn no_items() -> Set<usize> {
    Set::empty()
}

impl IdTable {
    /// Calls `HashMap::with_capacity`, which returns an empty map.
    #[verifier::external_body]
    pub(crate) fn with_capacity(capacity: usize) -> (table: IdTable)
        ensures
            id_table_entries(table) == no_entries(),
    {
        IdTable { slots: hashbrown::HashMap::with_capacity(capacity) }
    }

    /// Calls `HashMap::insert`: afterwards the key maps to the value and
    /// every other key is as before.
    #[verifier::external_body]
    pub(crate) fn insert(&mut self, key: usize, value: usize)
        ensures
            id_table_entries(*final(self)) == id_table_entries(*old(self)).insert(key, value),
    {
        self.slots.insert(key, value);
    }

    /// Calls `HashMap::get`: the value stored under the key, if there is one.
    #[verifier::external_body]
    pub(crate) fn get(&self, key: usize) -> (found: Option<usize>)
        ensures
            found == lookup(id_table_entries(*self), key),
    {
        self.slots.get(&key).copied()
    }

    /// Calls `HashMap::clone`: a map with the same entries.
    #[verifier::external_body]
    pub(crate) fn duplicate(&self) -> (copy: IdTable)
        ensures
            id_table_entries(copy) == id_table_entries(*self),
    {
        IdTable { slots: self.slots.clone() }
    }

    /// Calls `HashMap::len`: the number of keys, which is finite.
    #[verifier::external_body]
    pub(crate) fn len(&self) -> (n: usize)
        ensures
            has_size(id_table_entries(*self).dom(), n),
    {
        self.slots.len()
    }
}

/// The value a map holds under a key, if any.
pub open spec fn lookup(entries: Map<usize, usize>, key: usize) -> Option<usize> {
    if entries.contains_key(key) {
        Some(entries[key])
    } else {
        None
    }
}

impl IdSet {
    /// Calls `HashSet::with_capacity`, which returns an empty set.
    #[verifier::external_body]
    pub(crate) fn with_capacity(capacity: usize) -> (set: IdSet)
        ensures
            id_set_items(set) == no_items(),
    {
        IdSet { items: hashbrown::HashSet::with_capacity(capacity) }
    }

    /// Calls `HashSet::insert`: afterwards the set holds the item too, and the
    /// result tells whether it was new.
    #[verifier::external_body]
    pub(crate) fn insert(&mut self, item: usize) -> (fresh: bool)
        ensures
            id_set_items(*final(self)) == id_set_items(*old(self)).insert(item),
            fresh == !id_set_items(*old(self)).contains(item),
    {
        self.items.insert(item)
    }

    /// Calls `HashSet::contains`.
    #[verifier::external_body]
    pub(crate) fn contains(&self, item: usize) -> (found: bool)
        ensures
            found == id_set_items(*self).contains(item),
    {
        self.items.contains(&item)
    }
}

} // verus!
