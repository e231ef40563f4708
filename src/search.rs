//! Per-search bookkeeping of the proximity-graph index.
use vstd::prelude::*;

verus! {

broadcast use vstd::std_specs::hash::group_hash_axioms;

/// The neighbors of one graph node on one layer.
pub struct NeighborList {
    pub data: Vec<u32>,
}

/// The nodes a search has already visited.
pub struct SearchContext {
    visited: std::collections::HashSet<u32>,
}

impl SearchContext {
    /// The visited nodes.
    pub closed spec fn visited(&self) -> Set<u32> {
        self.visited@
    }

    /// A context with nothing visited; the capacity is only a hint.
    pub fn new(capacity: usize) -> (r: Self)
        ensures
            r.visited() == Set::<u32>::empty(),
    {
        SearchContext { visited: std::collections::HashSet::new() }
    }

    /// Forgets every visit.
    pub fn reset(&mut self)
        ensures
            final(self).visited() == Set::<u32>::empty(),
    {
        self.visited.clear();
    }

    pub fn is_visited(&self, id: u32) -> (r: bool)
        ensures
            r == self.visited().contains(id),
    {
        self.visited.contains(&id)
    }

    pub fn mark_visited(&mut self, id: u32)
        ensures
            final(self).visited() == old(self).visited().insert(id),
    {
        self.visited.insert(id);
    }
}

} // verus!
