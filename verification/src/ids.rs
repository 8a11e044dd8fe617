//! Hash collections of message ids, held in `hashbrown`.
use crate::channel::MSGID;
use hashbrown::{HashMap, HashSet};
use vstd::prelude::*;

verus! {

/// A set of message ids: a `hashbrown::HashSet<MSGID>` that Verus does not look
/// into. What it holds is named by `ids_of`.
#[verifier::external_body]
#[derive(Debug)]
pub struct IdSet {
    set: HashSet<MSGID>,
}

/// The ids that a set holds.
pub uninterp spec fn ids_of(set: IdSet) -> Set<MSGID>;

impl View for IdSet {
    type V = Set<MSGID>;

    open spec fn view(&self) -> Set<MSGID> {
        ids_of(*self)
    }
}

impl IdSet {
    /// Calls `hashbrown::HashSet::new`: the set holds nothing.
    #[verifier::external_body]
    pub(crate) fn new() -> (set: Self)
        ensures
            ids_of(set) == Set::<MSGID>::empty(),
    {
        IdSet { set: HashSet::new() }
    }

    /// Calls `hashbrown::HashSet::len`: the number of ids held.
    #[verifier::external_body]
    pub(crate) fn len(&self) -> (n: usize)
        ensures
            n == ids_of(*self).len(),
    {
        self.set.len()
    }

    /// Calls `hashbrown::HashSet::insert`: the id is held afterwards, and the
    /// result tells whether it was not held before.
    #[verifier::external_body]
    pub(crate) fn insert(&mut self, id: MSGID) -> (added: bool)
        ensures
            ids_of(*final(self)) == ids_of(*old(self)).insert(id),
            added == !ids_of(*old(self)).contains(id),
    {
        self.set.insert(id)
    }

    /// Calls `hashbrown::HashSet::remove`: the id is not held afterwards, and the
    /// result tells whether it was held before.
    #[verifier::external_body]
    pub(crate) fn remove(&mut self, id: MSGID) -> (removed: bool)
        ensures
            ids_of(*final(self)) == ids_of(*old(self)).remove(id),
            removed == ids_of(*old(self)).contains(id),
    {
        self.set.remove(&id)
    }

    /// Calls `hashbrown::HashSet::iter` and copies each id out: every id held
    /// comes once. The order in which they come is left unsaid, since it is that
    /// of the hash table.
    #[verifier::external_body]
    pub(crate) fn to_vec(&self) -> (ids: Vec<MSGID>)
        ensures
            ids@.no_duplicates(),
            ids@.to_set() == ids_of(*self),
    {
        self.set.iter().copied().collect()
    }
}

/// A map from message ids to counts: a `hashbrown::HashMap<MSGID, usize>` that
/// Verus does not look into. What it holds is named by `counts_of`.
#[verifier::external_body]
#[derive(Debug)]
pub struct IdCounts {
    map: HashMap<MSGID, usize>,
}

/// The count that a map holds for each of its ids.
pub uninterp spec fn counts_of(counts: IdCounts) -> Map<MSGID, usize>;

impl View for IdCounts {
    type V = Map<MSGID, usize>;

    open spec fn view(&self) -> Map<MSGID, usize> {
        counts_of(*self)
    }
}

impl IdCounts {
    /// Calls `hashbrown::HashMap::new`: the map holds nothing.
    #[verifier::external_body]
    pub(crate) fn new() -> (counts: Self)
        ensures
            counts_of(counts) == (Map::<MSGID, usize>::empty()),
    {
        IdCounts { map: HashMap::new() }
    }

    /// Calls `hashbrown::HashMap::len`: the number of ids held.
    #[verifier::external_body]
    pub(crate) fn len(&self) -> (n: usize)
        ensures
            n == counts_of(*self).len(),
    {
        self.map.len()
    }

    /// Calls `hashbrown::HashMap::insert`: the id is held with the given count,
    /// and the result is the count that it was held with before.
    #[verifier::external_body]
    pub(crate) fn insert(&mut self, id: MSGID, count: usize) -> (before: Option<usize>)
        ensures
            counts_of(*final(self)) == counts_of(*old(self)).insert(id, count),
            before == (if counts_of(*old(self)).contains_key(id) {
                Some(counts_of(*old(self))[id])
            } else {
                None
            }),
    {
        self.map.insert(id, count)
    }

    /// Calls `hashbrown::HashMap::remove`: the id is not held afterwards, and the
    /// result is the count that it was held with before.
    #[verifier::external_body]
    pub(crate) fn remove(&mut self, id: MSGID) -> (before: Option<usize>)
        ensures
            counts_of(*final(self)) == counts_of(*old(self)).remove(id),
            before == (if counts_of(*old(self)).contains_key(id) {
                Some(counts_of(*old(self))[id])
            } else {
                None
            }),
    {
        self.map.remove(&id)
    }
}

} // verus!
