//! Hash-based sets and maps of `hashbrown`, seen through their contents.
//!
//! `hashbrown::HashSet` and `hashbrown::HashMap` carry an allocator parameter
//! bounded by a trait of `allocator-api2`, which this crate does not name, so
//! each collection is held in a private field of a struct whose contents are
//! given a name; the methods below state what each call does to the contents.

use vstd::prelude::*;

verus! {

/// A set of indices, held in a `hashbrown::HashSet<usize>`.
#[verifier::external_body]
pub struct IndexSet {
    set: hashbrown::HashSet<usize>,
}

/// The indices that an `IndexSet` holds.
pub uninterp spec fn index_set_contents(s: IndexSet) -> Set<usize>;

impl IndexSet {
    /// Calls `hashbrown::HashSet::new`: the new set holds nothing.
    #[verifier::external_body]
    pub(crate) fn empty() -> (r: IndexSet)
        ensures
            index_set_contents(r) == Set::<usize>::empty(),
    {
        IndexSet { set: hashbrown::HashSet::new() }
    }

    /// Calls `hashbrown::HashSet::insert`: the set then holds `value`, and the
    /// result tells whether it was absent before.
    #[verifier::external_body]
    pub(crate) fn insert(&mut self, value: usize) -> (r: bool)
        ensures
            index_set_contents(*final(self)) == index_set_contents(*old(self)).insert(value),
            r == !index_set_contents(*old(self)).contains(value),
    {
        self.set.insert(value)
    }

    /// Calls `hashbrown::HashSet::contains`.
    #[verifier::external_body]
    pub(crate) fn contains(&self, value: usize) -> (r: bool)
        ensures
            r == index_set_contents(*self).contains(value),
    {
        self.set.contains(&value)
    }

    /// Calls `hashbrown::HashSet::is_empty`.
    #[verifier::external_body]
    pub(crate) fn is_empty(&self) -> (r: bool)
        ensures
            r == (index_set_contents(*self) == Set::<usize>::empty()),
    {
        self.set.is_empty()
    }

    /// A set that holds exactly the indices of `indices`.
    pub fn from_indices(indices: &Vec<usize>) -> (r: IndexSet)
        ensures
            index_set_contents(r) == indices@.to_set(),
    {
        let mut set = IndexSet::empty();
        let mut i: usize = 0;
        while i < indices.len()
            invariant
                i <= indices.len(),
                index_set_contents(set) == indices@.subrange(0, i as int).to_set(),
            decreases indices.len() - i,
        {
            let _ = set.insert(indices[i]);
            proof {
                assert(indices@.subrange(0, i + 1) == indices@.subrange(0, i as int).push(indices@[i as int]));
                indices@.subrange(0, i as int).lemma_push_to_set_commute(indices@[i as int]);
            }
            i = i + 1;
        }
        proof {
            assert(indices@.subrange(0, indices@.len() as int) == indices@);
        }
        set
    }

    /// Whether the set holds `value`.
    pub fn has(&self, value: usize) -> (r: bool)
        ensures
            r == index_set_contents(*self).contains(value),
    {
        self.contains(value)
    }
}

/// A map from group ids to group ids, held in a `hashbrown::HashMap<u64, u64>`.
#[verifier::external_body]
pub struct GroupMap {
    map: hashbrown::HashMap<u64, u64>,
}

/// The pairs that a `GroupMap` holds.
pub uninterp spec fn group_map_contents(m: GroupMap) -> Map<u64, u64>;

impl GroupMap {
    /// Calls `hashbrown::HashMap::new`: the new map holds nothing.
    #[verifier::external_body]
    pub(crate) fn empty() -> (r: GroupMap)
        ensures
            group_map_contents(r).dom() == Set::<u64>::empty(),
    {
        GroupMap { map: hashbrown::HashMap::new() }
    }

    /// A map that holds nothing.
    pub fn new() -> (r: GroupMap)
        ensures
            group_map_contents(r).dom() == Set::<u64>::empty(),
    {
        GroupMap::empty()
    }

    /// Calls `hashbrown::HashMap::get` and copies the value out.
    #[verifier::external_body]
    pub(crate) fn get(&self, key: u64) -> (r: Option<u64>)
        ensures
            r == (if group_map_contents(*self).contains_key(key) {
                Some(group_map_contents(*self)[key])
            } else {
                None
            }),
    {
        self.map.get(&key).copied()
    }

    /// Calls `hashbrown::HashMap::insert`, dropping the value it replaces.
    #[verifier::external_body]
    pub(crate) fn insert(&mut self, key: u64, value: u64)
        ensures
            group_map_contents(*final(self)) == group_map_contents(*old(self)).insert(key, value),
    {
        self.map.insert(key, value);
    }

    /// The group id that `key` is mapped to, if any.
    pub fn lookup(&self, key: u64) -> (r: Option<u64>)
        ensures
            r == (if group_map_contents(*self).contains_key(key) {
                Some(group_map_contents(*self)[key])
            } else {
                None
            }),
    {
        self.get(key)
    }
}

/// A set of item identities `(kind rank, track id, item id)`, held in a
/// `hashbrown::HashSet<(u8, u128, u128)>`.
#[verifier::external_body]
pub struct IdentitySet {
    set: hashbrown::HashSet<(u8, u128, u128)>,
}

/// The identities that an `IdentitySet` holds.
pub uninterp spec fn identity_set_contents(s: IdentitySet) -> Set<(u8, u128, u128)>;

impl IdentitySet {
    /// Calls `hashbrown::HashSet::new`: the new set holds nothing.
    #[verifier::external_body]
    pub(crate) fn empty() -> (r: IdentitySet)
        ensures
            identity_set_contents(r) == Set::<(u8, u128, u128)>::empty(),
    {
        IdentitySet { set: hashbrown::HashSet::new() }
    }

    /// Calls `hashbrown::HashSet::insert`: the set then holds `value`, and the
    /// result tells whether it was absent before.
    #[verifier::external_body]
    pub(crate) fn insert(&mut self, value: (u8, u128, u128)) -> (r: bool)
        ensures
            identity_set_contents(*final(self)) == identity_set_contents(*old(self)).insert(value),
            r == !identity_set_contents(*old(self)).contains(value),
    {
        self.set.insert(value)
    }
}

} // verus!
