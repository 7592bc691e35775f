//! Cached query state: the archetypes that a filter admits, gathered once and
//! brought up to date only for archetypes made since the last update.
use vstd::prelude::*;
use crate::entity::Entity;
use crate::ids::{elems, lemma_push_contains};
use crate::query::QueryFilter;
use crate::world::{lemma_archetype_rows, lemma_live_entity_location, World};

verus! {

/// A filter with the list of archetypes, among the first `seen`, that it admits.
#[derive(Debug)]
pub struct QueryState {
    pub filter: QueryFilter,
    pub matched: Vec<usize>,
    pub seen: usize,
}

impl QueryState {
    /// The cached list holds, once each, exactly the archetypes among the
    /// first `seen` of `w` that the filter admits.
    pub open spec fn tracks(&self, w: &World) -> bool {
        &&& self.seen <= w.archetype_count()
        &&& self.matched@.no_duplicates()
        &&& forall|a: usize| #[trigger] self.matched@.contains(a) <==> (a < self.seen
            && self.filter.matches_set(elems(w.archetype_components(a as int))))
    }

    /// A state that has seen no archetype yet.
    pub fn new(filter: QueryFilter) -> (r: QueryState)
        ensures
            r.filter == filter,
            r.seen == 0,
            forall|w: World| r.tracks(&w),
    {
        QueryState { filter, matched: Vec::new(), seen: 0 }
    }

    /// Adds the archetypes made since the last update that the filter admits.
    pub fn update_archetypes(&mut self, w: &World)
        requires
            w.wf(),
            old(self).tracks(w),
        ensures
            final(self).tracks(w),
            final(self).seen == w.archetype_count(),
            final(self).filter == old(self).filter,
    {
        let n = w.num_archetypes();
        let mut a: usize = self.seen;
        while a < n
            invariant
                n == w.archetype_count(),
                w.wf(),
                self.filter == old(self).filter,
                self.seen <= a <= w.archetype_count(),
                self.matched@.no_duplicates(),
                forall|b: usize| #[trigger] self.matched@.contains(b) <==> (b < a
                    && self.filter.matches_set(elems(w.archetype_components(b as int)))),
            decreases w.archetype_count() - a,
        {
            let comps = w.archetype_component_ids(a).unwrap();
            if self.filter.matches(&comps) {
                proof {
                    lemma_push_contains(self.matched@, a);
                    assert(!self.matched@.contains(a));
                }
                self.matched.push(a);
            }
            a = a + 1;
        }
        self.seen = a;
    }

    /// The living entities that the filter admits, each once, read through the
    /// cached archetype list of a state that is up to date.
    pub fn iter(&self, w: &World) -> (r: Vec<Entity>)
        requires
            w.wf(),
            self.tracks(w),
            self.seen == w.archetype_count(),
        ensures
            forall|x: Entity| #[trigger] r@.contains(x) <==> (w.contains(x)
                && self.filter.matches_set(w.components_of(x))),
            r@.no_duplicates(),
    {
        let mut out: Vec<Entity> = Vec::new();
        let mut i: usize = 0;
        while i < self.matched.len()
            invariant
                w.wf(),
                self.tracks(w),
                self.seen == w.archetype_count(),
                i <= self.matched@.len(),
                out@.no_duplicates(),
                forall|x: Entity| #[trigger] out@.contains(x) <==> (w.contains(x)
                    && self.matched@.subrange(0, i as int).contains(w.location_of(x).archetype)),
            decreases self.matched@.len() - i,
        {
            let a = self.matched[i];
            proof {
                assert(self.matched@.contains(a));
                lemma_archetype_rows(*w, a as int);
            }
            let ents = w.archetype_entity_list(a).unwrap();
            let mut r: usize = 0;
            while r < ents.len()
                invariant
                    w.wf(),
                    self.tracks(w),
                    i < self.matched@.len(),
                    a == self.matched@[i as int],
                    a < w.archetype_count(),
                    ents@ == w.archetype_entities(a as int),
                    w.archetype_len(a as int) == ents@.len(),
                    forall|k: int| 0 <= k < w.archetype_len(a as int) ==> #[trigger] w.archetype_entity(a as int, k)
                        == w.archetype_entities(a as int)[k],
                    forall|k: int| 0 <= k < w.archetype_len(a as int) ==> {
                        &&& w.contains(#[trigger] w.archetype_entity(a as int, k))
                        &&& w.location_of(w.archetype_entity(a as int, k)) == (crate::entity::EntityLocation { archetype: a, row: k as usize })
                    },
                    r <= ents@.len(),
                    out@.no_duplicates(),
                    forall|x: Entity| #[trigger] out@.contains(x) <==> (w.contains(x)
                        && (self.matched@.subrange(0, i as int).contains(w.location_of(x).archetype)
                            || (w.location_of(x).archetype == a && w.location_of(x).row < r))),
                decreases ents@.len() - r,
            {
                let x = ents[r];
                proof {
                    assert(w.archetype_entity(a as int, r as int) == x);
                    assert(w.contains(x));
                    assert(w.location_of(x).archetype == a && w.location_of(x).row == r);
                    let prev = self.matched@.subrange(0, i as int);
                    if prev.contains(a) {
                        let j = choose|j: int| 0 <= j < prev.len() && prev[j] == a;
                        assert(self.matched@[j] == self.matched@[i as int]);
                    }
                    assert(!out@.contains(x));
                    assert forall|y: Entity| w.contains(y) && w.location_of(y).archetype == a
                        && w.location_of(y).row == r implies y == x by {
                        lemma_live_entity_location(*w, y);
                    }
                    lemma_push_contains(out@, x);
                    assert forall|p: int, q: int| 0 <= p < out@.push(x).len() && 0 <= q < out@.push(x).len()
                        && p != q implies out@.push(x)[p] != out@.push(x)[q] by {
                        if p < out@.len() && q < out@.len() {
                        } else if p < out@.len() {
                            assert(out@.contains(out@[p]));
                        } else if q < out@.len() {
                            assert(out@.contains(out@[q]));
                        }
                    }
                }
                out.push(x);
                r = r + 1;
            }
            proof {
                assert forall|x: Entity| w.contains(x) && w.location_of(x).archetype == a implies w.location_of(x).row < r by {
                    lemma_live_entity_location(*w, x);
                }
                assert forall|b: usize| #[trigger] self.matched@.subrange(0, i + 1).contains(b)
                    <==> self.matched@.subrange(0, i as int).contains(b) || b == a by {
                    let next = self.matched@.subrange(0, i + 1);
                    if next.contains(b) {
                        let j = choose|j: int| 0 <= j < next.len() && next[j] == b;
                        if j < i {
                            assert(self.matched@.subrange(0, i as int)[j] == b);
                        }
                    }
                    let prev = self.matched@.subrange(0, i as int);
                    if prev.contains(b) {
                        let j = choose|j: int| 0 <= j < prev.len() && prev[j] == b;
                        assert(next[j] == b);
                    }
                    if b == a {
                        assert(self.matched@.subrange(0, i + 1)[i as int] == a);
                    }
                }
            }
            i = i + 1;
        }
        proof {
            assert(self.matched@.subrange(0, i as int) =~= self.matched@);
            assert forall|x: Entity| #[trigger] out@.contains(x) <==> (w.contains(x)
                && self.filter.matches_set(w.components_of(x))) by {
                if w.contains(x) {
                    lemma_live_entity_location(*w, x);
                }
            }
        }
        out
    }
}

/// A state that tracks a world keeps tracking it after any operation that
/// only appends archetypes and changes no archetype's component set, as every
/// operation of `World` does.
pub proof fn lemma_tracks_after(q: QueryState, w1: World, w2: World)
    requires
        q.tracks(&w1),
        w1.archetype_count() <= w2.archetype_count(),
        forall|a: int| 0 <= a < w1.archetype_count() ==> #[trigger] w2.archetype_components(a)
            == w1.archetype_components(a),
    ensures
        q.tracks(&w2),
{
    assert forall|a: usize| #[trigger] q.matched@.contains(a) <==> (a < q.seen
        && q.filter.matches_set(elems(w2.archetype_components(a as int)))) by {
        if a < q.seen {
            assert(w2.archetype_components(a as int) == w1.archetype_components(a as int));
        }
    }
}

} // verus!
