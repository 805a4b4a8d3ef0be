//! The result of a successful search: a lazy, single-pass backward walk over
//! the retained record store, following parent links from the discovered goal
//! toward the start.

use crate::store::RecordStore;
use vstd::prelude::*;

verus! {

/// A finite, non-restartable sequence of node identifiers. Repeated calls of
/// [`Path::next`] follow `parent` links starting at the discovered goal and
/// stop — without yielding — once the cursor reaches the original start
/// node, so the emitted sequence is `[goal, ..., predecessor-of-start]`: it
/// excludes the start node and begins with the goal node.
#[derive(Debug)]
pub struct Path {
    to: usize,
    next_id: usize,
    // reuses the record store built by the search driver:
    // it holds all examined nodes, not just the ones on the route
    infos: RecordStore,
}

impl Path {
    /// The boundary node: the search's start, at which the walk stops. It is
    /// never yielded.
    pub closed spec fn boundary(&self) -> usize {
        self.to
    }

    /// The cursor: the node the next step yields, unless it has already
    /// reached the boundary.
    pub closed spec fn cursor(&self) -> usize {
        self.next_id
    }

    /// The retained records, seen as a map from each examined node to its
    /// recorded parent link.
    pub closed spec fn parent_map(&self) -> Map<usize, usize> {
        Map::new(
            |n: usize| self.infos@.contains_key(n),
            |n: usize| self.infos@[n].parent,
        )
    }

    /// Well-formedness: the cursor is a recorded node, and every recorded
    /// parent link leads to a recorded node, so each step of the walk finds
    /// the record it needs.
    pub open spec fn wf(&self) -> bool {
        &&& self.parent_map().contains_key(self.cursor())
        &&& forall|n: usize| #[trigger]
            self.parent_map().contains_key(n) ==> self.parent_map().contains_key(
                self.parent_map()[n],
            )
    }

    /// Takes ownership of the record store; the cursor starts at `start` (the
    /// discovered goal) and the walk's boundary is `finish` (the search's
    /// start node).
    pub(crate) fn new(infos: RecordStore, start: usize, finish: usize) -> (r: Path)
        ensures
            r.parent_map() == Map::new(
                |n: usize| infos@.contains_key(n),
                |n: usize| infos@[n].parent,
            ),
            r.cursor() == start,
            r.boundary() == finish,
    {
        Path { to: finish, next_id: start, infos }
    }

    /// Yields the cursor and moves the cursor to its recorded parent; yields
    /// nothing once the cursor has reached the boundary. Each step performs
    /// one lookup into the retained record store.
    pub fn next(&mut self) -> (r: Option<usize>)
        requires
            old(self).wf(),
        ensures
            final(self).wf(),
            final(self).parent_map() == old(self).parent_map(),
            final(self).boundary() == old(self).boundary(),
            old(self).cursor() == old(self).boundary() ==> r is None && final(self).cursor() == old(
                self,
            ).cursor(),
            old(self).cursor() != old(self).boundary() ==> r == Some(old(self).cursor())
                && final(self).cursor() == old(self).parent_map()[old(self).cursor()],
    {
        if self.next_id == self.to {
            None
        } else {
            let result = self.next_id;
            proof {
                assert(self.infos@.contains_key(result));
            }
            let parent = self.infos.get(result).unwrap().parent;
            self.next_id = parent;
            Some(result)
        }
    }
}

} // verus!
