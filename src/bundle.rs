//! Bundles: ordered groups of component values that are added to an entity at once.
use vstd::prelude::*;
use crate::ids::{index_of, lemma_index_of, lemma_index_of_contains, position, vec_contains};

verus! {

/// The map from each id of `ids` to the value at the same position of `vals`.
pub open spec fn map_of(ids: Seq<usize>, vals: Seq<u64>) -> Map<usize, u64> {
    Map::new(|c: usize| ids.contains(c), |c: usize| vals[index_of(ids, c)])
}

/// `base` followed by the ids of `more` that it does not hold yet, in the
/// order of `more`.
pub open spec fn appended_new(base: Seq<usize>, more: Seq<usize>) -> Seq<usize>
    decreases more.len(),
{
    if more.len() == 0 {
        base
    } else {
        let b = appended_new(base, more.drop_last());
        if b.contains(more.last()) {
            b
        } else {
            b.push(more.last())
        }
    }
}

/// A group of component values, one per component id, in the order in which
/// they were added. The order is the one that `component_ids`,
/// `get_components` and `from_components` share.
#[derive(Debug)]
pub struct Bundle {
    pub ids: Vec<usize>,
    pub values: Vec<u64>,
}

impl Bundle {
    pub open spec fn wf(&self) -> bool {
        self.ids@.no_duplicates() && self.ids@.len() == self.values@.len()
    }

    /// The value that the bundle holds for each of its component ids.
    pub open spec fn view(&self) -> Map<usize, u64> {
        map_of(self.ids@, self.values@)
    }

    pub fn new() -> (r: Bundle)
        ensures
            r.wf(),
            r.ids@ == Seq::<usize>::empty(),
            r.view() == Map::<usize, u64>::empty(),
    {
        let r = Bundle { ids: Vec::new(), values: Vec::new() };
        assert(r.view() =~= Map::<usize, u64>::empty());
        r
    }

    pub fn len(&self) -> (r: usize)
        ensures
            r == self.ids@.len(),
    {
        self.ids.len()
    }

    pub fn is_empty(&self) -> (r: bool)
        ensures
            r == (self.ids@.len() == 0),
    {
        self.ids.len() == 0
    }

    /// Sets the value of component `id`: a new id goes to the end, a known one
    /// keeps its place.
    pub fn insert(&mut self, id: usize, value: u64)
        requires
            old(self).wf(),
        ensures
            final(self).wf(),
            final(self).view() == old(self).view().insert(id, value),
            old(self).ids@.contains(id) ==> final(self).ids@ == old(self).ids@,
            !old(self).ids@.contains(id) ==> final(self).ids@ == old(self).ids@.push(id),
    {
        let ghost old_ids = self.ids@;
        let ghost old_vals = self.values@;
        match position(&self.ids, id) {
            Some(k) => {
                self.values.set(k, value);
                proof {
                    assert forall|c: usize| self.ids@.contains(c) implies #[trigger] self.view()[c]
                        == old(self).view().insert(id, value)[c] by {
                        lemma_index_of_contains(old_ids, c);
                    }
                    assert(self.view() =~= old(self).view().insert(id, value));
                }
            },
            None => {
                self.ids.push(id);
                self.values.push(value);
                proof {
                    let n = old_ids.len();
                    assert(self.ids@[n as int] == id);
                    lemma_index_of(self.ids@, n as int);
                    assert forall|c: usize| #[trigger] self.ids@.contains(c) <==> old_ids.contains(c) || c == id by {
                        if old_ids.contains(c) {
                            let j = index_of(old_ids, c);
                            lemma_index_of_contains(old_ids, c);
                            assert(self.ids@[j] == c);
                        }
                        if self.ids@.contains(c) && c != id {
                            lemma_index_of_contains(self.ids@, c);
                            assert(old_ids[index_of(self.ids@, c)] == c);
                        }
                    }
                    assert forall|c: usize| self.ids@.contains(c) implies #[trigger] self.view()[c]
                        == old(self).view().insert(id, value)[c] by {
                        if c != id {
                            lemma_index_of_contains(old_ids, c);
                            let j = index_of(old_ids, c);
                            assert(self.ids@[j] == c);
                            lemma_index_of(self.ids@, j);
                        }
                    }
                    assert(self.view() =~= old(self).view().insert(id, value));
                }
            },
        }
    }

    /// The component ids, in the bundle's order.
    pub fn component_ids(&self) -> (r: Vec<usize>)
        ensures
            r@ == self.ids@,
    {
        let mut r: Vec<usize> = Vec::new();
        let mut i: usize = 0;
        while i < self.ids.len()
            invariant
                i <= self.ids@.len(),
                r@ == self.ids@.subrange(0, i as int),
            decreases self.ids@.len() - i,
        {
            r.push(self.ids[i]);
            i = i + 1;
            assert(r@ =~= self.ids@.subrange(0, i as int));
        }
        assert(r@ =~= self.ids@);
        r
    }

    /// The component values, in the bundle's order.
    pub fn get_components(&self) -> (r: Vec<u64>)
        ensures
            r@ == self.values@,
    {
        let mut r: Vec<u64> = Vec::new();
        let mut i: usize = 0;
        while i < self.values.len()
            invariant
                i <= self.values@.len(),
                r@ == self.values@.subrange(0, i as int),
            decreases self.values@.len() - i,
        {
            r.push(self.values[i]);
            i = i + 1;
            assert(r@ =~= self.values@.subrange(0, i as int));
        }
        assert(r@ =~= self.values@);
        r
    }

    /// Rebuilds a bundle from ids and values given in the same order. There is
    /// none when the two lengths differ or an id occurs twice.
    pub fn from_components(ids: Vec<usize>, values: Vec<u64>) -> (r: Option<Bundle>)
        ensures
            r is Some <==> (ids@.len() == values@.len() && ids@.no_duplicates()),
            r matches Some(b) ==> b.wf() && b.ids@ == ids@ && b.values@ == values@
                && b.view() == map_of(ids@, values@),
    {
        if ids.len() != values.len() {
            return None;
        }
        let mut seen: Vec<usize> = Vec::new();
        let mut i: usize = 0;
        while i < ids.len()
            invariant
                i <= ids@.len(),
                seen@ == ids@.subrange(0, i as int),
                seen@.no_duplicates(),
            decreases ids@.len() - i,
        {
            if vec_contains(&seen, ids[i]) {
                proof {
                    let j = choose|j: int| 0 <= j < seen@.len() && seen@[j] == ids@[i as int];
                    assert(ids@[j] == ids@[i as int] && j != i);
                }
                return None;
            }
            seen.push(ids[i]);
            i = i + 1;
            assert(seen@ =~= ids@.subrange(0, i as int));
        }
        assert(seen@ =~= ids@);
        Some(Bundle { ids, values })
    }

    /// Adds every component of `other`; where both hold an id, `other`'s value wins.
    pub fn extend(&mut self, other: &Bundle)
        requires
            old(self).wf(),
            other.wf(),
        ensures
            final(self).wf(),
            final(self).view() == old(self).view().union_prefer_right(other.view()),
            final(self).ids@ == appended_new(old(self).ids@, other.ids@),
            forall|k: int| 0 <= k < final(self).ids@.len() ==> #[trigger] final(self).values@[k]
                == final(self).view()[final(self).ids@[k]],
    {
        let mut i: usize = 0;
        while i < other.ids.len()
            invariant
                i <= other.ids@.len(),
                other.wf(),
                self.wf(),
                self.view() == old(self).view().union_prefer_right(
                    map_of(other.ids@.subrange(0, i as int), other.values@.subrange(0, i as int)),
                ),
                self.ids@ == appended_new(old(self).ids@, other.ids@.subrange(0, i as int)),
            decreases other.ids@.len() - i,
        {
            let id = other.ids[i];
            let v = other.values[i];
            self.insert(id, v);
            proof {
                let p = other.ids@.subrange(0, i as int);
                let q = other.ids@.subrange(0, i + 1);
                let pv = other.values@.subrange(0, i as int);
                let qv = other.values@.subrange(0, i + 1);
                assert(q =~= p.push(id));
                assert(q.drop_last() =~= p);
                assert(qv =~= pv.push(v));
                assert(q.no_duplicates());
                assert(p.no_duplicates());
                assert forall|c: usize| #[trigger] q.contains(c) <==> p.contains(c) || c == id by {
                    if p.contains(c) {
                        lemma_index_of_contains(p, c);
                        assert(q[index_of(p, c)] == c);
                    }
                    if q.contains(c) && c != id {
                        lemma_index_of_contains(q, c);
                        assert(p[index_of(q, c)] == c);
                    }
                    if c == id {
                        assert(q[i as int] == id);
                    }
                }
                assert forall|c: usize| q.contains(c) implies #[trigger] map_of(q, qv)[c]
                    == map_of(p, pv).insert(id, v)[c] by {
                    if c == id {
                        lemma_index_of(q, i as int);
                    } else {
                        lemma_index_of_contains(p, c);
                        let j = index_of(p, c);
                        assert(q[j] == c);
                        lemma_index_of(q, j);
                    }
                }
                assert(map_of(q, qv) =~= map_of(p, pv).insert(id, v));
                assert(self.view() =~= old(self).view().union_prefer_right(map_of(q, qv)));
            }
            i = i + 1;
        }
        proof {
            assert(other.ids@.subrange(0, i as int) =~= other.ids@);
            assert(other.values@.subrange(0, i as int) =~= other.values@);
            assert forall|k: int| 0 <= k < self.ids@.len() implies #[trigger] self.values@[k]
                == self.view()[self.ids@[k]] by {
                lemma_bundle_lookup(*self, k);
            }
        }
    }
}

/// In a bundle, the value at each position is the value of the id at that position.
pub proof fn lemma_bundle_lookup(b: Bundle, k: int)
    requires
        b.wf(),
        0 <= k < b.ids@.len(),
    ensures
        b.view().contains_key(b.ids@[k]),
        b.view()[b.ids@[k]] == b.values@[k],
{
    lemma_index_of(b.ids@, k);
}

/// Taking a bundle apart into its ids and values and putting them back
/// together gives the same bundle, whatever order the fields come in: any
/// reordering that moves each id together with its value rebuilds the same
/// bundle. This holds for an empty bundle too.
pub proof fn lemma_bundle_round_trip(b: Bundle, ids: Seq<usize>, vals: Seq<u64>)
    requires
        b.wf(),
        ids.no_duplicates(),
        ids.len() == vals.len(),
        forall|c: usize| #[trigger] ids.contains(c) <==> b.ids@.contains(c),
        forall|k: int| 0 <= k < ids.len() ==> b.view()[#[trigger] ids[k]] == vals[k],
    ensures
        map_of(b.ids@, b.values@) == b.view(),
        map_of(ids, vals) == b.view(),
{
    assert forall|c: usize| ids.contains(c) implies #[trigger] map_of(ids, vals)[c] == b.view()[c] by {
        lemma_index_of_contains(ids, c);
    }
    assert(map_of(ids, vals) =~= b.view());
}

} // verus!
