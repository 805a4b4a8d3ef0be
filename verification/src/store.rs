//! The node record store and the closed set: the per-node bookkeeping that
//! the search driver mutates and that path reconstruction later reads.

use std::collections::HashMap;
use std::collections::HashSet;
use vstd::prelude::*;

verus! {

broadcast use vstd::std_specs::hash::group_hash_axioms;

/// The sum of two costs, saturating at the largest representable cost.
pub(crate) open spec fn cost_sum(a: u64, b: u64) -> u64 {
    if a + b <= u64::MAX {
        (a + b) as u64
    } else {
        u64::MAX
    }
}

/// Adds two costs, saturating at the largest representable cost.
pub(crate) fn sum_costs(a: u64, b: u64) -> (r: u64)
    ensures
        r == cost_sum(a, b),
{
    if a <= u64::MAX - b {
        a + b
    } else {
        u64::MAX
    }
}

/// The best known cost record for a node: `g` is the accumulated cost from
/// the start along the best route found so far, `f = g + h` adds the
/// heuristic estimate taken when the record was created, and `parent` is the
/// link that path reconstruction follows backward.
#[derive(Debug)]
pub(crate) struct NodeInfo {
    pub(crate) f: u64,
    pub(crate) g: u64,
    pub(crate) parent: usize,
}

impl NodeInfo {
    /// g: calculated cost from start to this node
    /// h: estimated cost from this node to the goal
    pub(crate) fn new(g: u64, h: u64, parent: usize) -> (r: NodeInfo)
        ensures
            r.g == g,
            r.f == cost_sum(g, h),
            r.parent == parent,
    {
        NodeInfo { g, f: sum_costs(g, h), parent }
    }
}

/// Node record store: node identifier to best known record. `put` overwrites
/// unconditionally — the search driver, not the store, decides when
/// overwriting is warranted. Records are replaced, never removed.
#[derive(Debug)]
pub(crate) struct RecordStore {
    map: HashMap<usize, NodeInfo>,
}

impl View for RecordStore {
    type V = Map<usize, NodeInfo>;

    closed spec fn view(&self) -> Map<usize, NodeInfo> {
        self.map@
    }
}

impl RecordStore {
    pub(crate) fn new() -> (r: RecordStore)
        ensures
            r@ == Map::<usize, NodeInfo>::empty(),
    {
        RecordStore { map: HashMap::new() }
    }

    pub(crate) fn get(&self, id: usize) -> (r: Option<&NodeInfo>)
        ensures
            match r {
                Some(info) => self@.contains_key(id) && *info == self@[id],
                None => !self@.contains_key(id),
            },
    {
        self.map.get(&id)
    }

    pub(crate) fn put(&mut self, id: usize, info: NodeInfo)
        ensures
            final(self)@ == old(self)@.insert(id, info),
    {
        self.map.insert(id, info);
    }
}

/// Closed set: the node identifiers already finalized (expanded as the
/// frontier minimum). Insert-only for the lifetime of one search.
#[derive(Debug)]
pub(crate) struct ClosedSet {
    set: HashSet<usize>,
}

impl View for ClosedSet {
    type V = Set<usize>;

    closed spec fn view(&self) -> Set<usize> {
        self.set@
    }
}

impl ClosedSet {
    pub(crate) fn new() -> (r: ClosedSet)
        ensures
            r@ == Set::<usize>::empty(),
    {
        ClosedSet { set: HashSet::new() }
    }

    pub(crate) fn insert(&mut self, id: usize)
        ensures
            final(self)@ == old(self)@.insert(id),
    {
        self.set.insert(id);
    }

    pub(crate) fn contains(&self, id: usize) -> (r: bool)
        ensures
            r == self@.contains(id),
    {
        self.set.contains(&id)
    }
}

} // verus!
