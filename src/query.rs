//! Query filters: the components an entity must have and must not have.
use vstd::prelude::*;
use crate::ids::{elems, vec_contains};

verus! {

/// A `With`/`Without` filter over component ids.
#[derive(Debug)]
pub struct QueryFilter {
    pub with: Vec<usize>,
    pub without: Vec<usize>,
}

impl QueryFilter {
    /// Whether a component set has every `with` id and no `without` id.
    pub open spec fn matches_set(&self, comps: Set<usize>) -> bool {
        elems(self.with@).subset_of(comps) && elems(self.without@).disjoint(comps)
    }

    /// A filter that every component set passes.
    pub fn new() -> (r: QueryFilter)
        ensures
            r.with@.len() == 0,
            r.without@.len() == 0,
            forall|s: Set<usize>| r.matches_set(s),
    {
        let r = QueryFilter { with: Vec::new(), without: Vec::new() };
        proof {
            assert forall|s: Set<usize>| r.matches_set(s) by {
                assert(elems(r.with@) =~= Set::<usize>::empty());
                assert(elems(r.without@) =~= Set::<usize>::empty());
            }
        }
        r
    }

    /// Also asks for component `id`.
    pub fn with(&mut self, id: usize)
        ensures
            final(self).with@ == old(self).with@.push(id),
            final(self).without@ == old(self).without@,
    {
        self.with.push(id);
    }

    /// Also rules out component `id`.
    pub fn without(&mut self, id: usize)
        ensures
            final(self).without@ == old(self).without@.push(id),
            final(self).with@ == old(self).with@,
    {
        self.without.push(id);
    }

    /// Whether an archetype with components `comps` passes the filter.
    pub fn matches(&self, comps: &Vec<usize>) -> (r: bool)
        ensures
            r == self.matches_set(elems(comps@)),
    {
        let mut i: usize = 0;
        while i < self.with.len()
            invariant
                i <= self.with@.len(),
                forall|j: int| 0 <= j < i ==> comps@.contains(#[trigger] self.with@[j]),
            decreases self.with@.len() - i,
        {
            if !vec_contains(comps, self.with[i]) {
                assert(elems(self.with@).contains(self.with@[i as int]));
                return false;
            }
            i = i + 1;
        }
        let mut k: usize = 0;
        while k < self.without.len()
            invariant
                k <= self.without@.len(),
                forall|j: int| 0 <= j < k ==> !comps@.contains(#[trigger] self.without@[j]),
            decreases self.without@.len() - k,
        {
            if vec_contains(comps, self.without[k]) {
                assert(elems(self.without@).contains(self.without@[k as int]));
                return false;
            }
            k = k + 1;
        }
        proof {
            assert forall|x: usize| elems(self.with@).contains(x) implies elems(comps@).contains(x) by {
                let j = choose|j: int| 0 <= j < self.with@.len() && self.with@[j] == x;
                assert(comps@.contains(self.with@[j]));
            }
            assert forall|x: usize| elems(self.without@).contains(x) implies !elems(comps@).contains(x) by {
                let j = choose|j: int| 0 <= j < self.without@.len() && self.without@[j] == x;
                assert(!comps@.contains(self.without@[j]));
            }
        }
        true
    }
}

} // verus!
