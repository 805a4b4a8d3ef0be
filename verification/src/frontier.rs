//! The open frontier: a min-priority queue of `(f, id)` entries. The queue
//! may hold several entries for one node identifier; staleness is resolved by
//! the search driver against the closed set, never inside the queue.

use vstd::prelude::*;

verus! {

/// One frontier entry: the priority `f` under which a node was discovered,
/// and the node's identifier.
#[derive(Clone, Copy, Debug)]
pub(crate) struct OpenListElement {
    pub(crate) f: u64,
    pub(crate) id: usize,
}

impl OpenListElement {
    pub(crate) fn new(f: u64, id: usize) -> (r: OpenListElement)
        ensures
            r.f == f,
            r.id == id,
    {
        OpenListElement { f, id }
    }
}

/// The open frontier. Ordering ties between entries of equal `f` are broken
/// by an internal rule that callers must not rely on.
#[derive(Debug)]
pub(crate) struct OpenList {
    entries: Vec<OpenListElement>,
}

impl View for OpenList {
    type V = Seq<OpenListElement>;

    closed spec fn view(&self) -> Seq<OpenListElement> {
        self.entries@
    }
}

impl OpenList {
    pub(crate) fn new() -> (r: OpenList)
        ensures
            r@ == Seq::<OpenListElement>::empty(),
    {
        OpenList { entries: Vec::new() }
    }

    pub(crate) fn len(&self) -> (n: usize)
        ensures
            n == self@.len(),
    {
        self.entries.len()
    }

    /// Always inserts a new entry, even when entries for the same identifier
    /// are already queued.
    pub(crate) fn push(&mut self, e: OpenListElement)
        ensures
            final(self)@ == old(self)@.push(e),
    {
        self.entries.push(e);
    }

    /// Removes and returns an entry of least `f`, or nothing when the
    /// frontier is empty.
    pub(crate) fn pop_min(&mut self) -> (r: Option<OpenListElement>)
        ensures
            old(self)@.len() == 0 ==> r is None && final(self)@ == old(self)@,
            old(self)@.len() > 0 ==> (exists|i: int|
                0 <= i < old(self)@.len() && r == Some(old(self)@[i]) && final(self)@ == old(
                    self,
                )@.remove(i) && (forall|j: int|
                    0 <= j < old(self)@.len() ==> old(self)@[i].f <= #[trigger] old(self)@[j].f)),
    {
        if self.entries.len() == 0 {
            return None;
        }
        let mut best: usize = 0;
        let mut k: usize = 1;
        while k < self.entries.len()
            invariant
                best < k,
                k <= self.entries@.len(),
                forall|j: int|
                    0 <= j < k ==> self.entries@[best as int].f <= #[trigger] self.entries@[j].f,
            decreases self.entries@.len() - k,
        {
            if self.entries[k].f < self.entries[best].f {
                best = k;
            }
            k = k + 1;
        }
        let e = self.entries.remove(best);
        proof {
            let i = best as int;
            assert(0 <= i < old(self)@.len());
            assert(e == old(self)@[i]);
            assert(self@ == old(self)@.remove(i));
        }
        Some(e)
    }
}

} // verus!
