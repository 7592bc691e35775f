//! The world: entity slots with generations, the archetypes that hold the
//! entities' components, the component registry and the change tick.
use vstd::prelude::*;
use crate::archetype::{Archetype, Cell};
use crate::component::{ComponentInfo, ComponentRegistry};
use crate::entity::{Entity, EntityLocation, EntityMeta};
use crate::bundle::{lemma_bundle_lookup, Bundle};
use crate::ids::{
    copy_ids, elems, index_of, lemma_elems_prefix, lemma_elems_push, lemma_index_of,
    lemma_index_of_contains, lemma_push_contains, position, sorted_ids, strictly_sorted, vec_contains,
};
use crate::access::Access;
use crate::query::QueryFilter;
use crate::tick::{advance, age, Tick};

verus! {

/// Why an operation on an entity did nothing.
#[derive(Clone, Copy, Debug, PartialEq, Eq, Structural)]
pub enum EntityError {
    /// The handle's slot holds no entity, or a later one (its generation moved on).
    NoSuchEntity,
}

/// Whether `a` and `b` hold the same ids.
pub fn same_ids(a: &Vec<usize>, b: &Vec<usize>) -> (r: bool)
    ensures
        r == (elems(a@) == elems(b@)),
{
    let mut i: usize = 0;
    while i < a.len()
        invariant
            i <= a@.len(),
            forall|j: int| 0 <= j < i ==> b@.contains(#[trigger] a@[j]),
        decreases a@.len() - i,
    {
        if !vec_contains(b, a[i]) {
            assert(elems(a@).contains(a@[i as int]) && !elems(b@).contains(a@[i as int]));
            return false;
        }
        i = i + 1;
    }
    let mut k: usize = 0;
    while k < b.len()
        invariant
            k <= b@.len(),
            forall|j: int| 0 <= j < a@.len() ==> b@.contains(#[trigger] a@[j]),
            forall|j: int| 0 <= j < k ==> a@.contains(#[trigger] b@[j]),
        decreases b@.len() - k,
    {
        if !vec_contains(a, b[k]) {
            assert(elems(b@).contains(b@[k as int]) && !elems(a@).contains(b@[k as int]));
            return false;
        }
        k = k + 1;
    }
    proof {
        assert forall|x: usize| elems(a@).contains(x) <==> elems(b@).contains(x) by {
            if a@.contains(x) {
                let j = choose|j: int| 0 <= j < a@.len() && a@[j] == x;
                assert(b@.contains(a@[j]));
            }
            if b@.contains(x) {
                let j = choose|j: int| 0 <= j < b@.len() && b@[j] == x;
                assert(a@.contains(b@[j]));
            }
        }
        assert(elems(a@) =~= elems(b@));
    }
    true
}

/// The components of an entity spawned with bundle `b` at tick `tick`.
pub open spec fn spawned(b: Map<usize, u64>, tick: u32) -> Map<usize, Cell> {
    Map::new(|c: usize| b.contains_key(c), |c: usize| Cell { value: b[c], added: tick, changed: tick })
}

/// The components of an entity that held `m` after bundle `b` is inserted at
/// tick `tick`: each value of `b` is written and marked changed; a component
/// that is new is marked added too.
pub open spec fn inserted(m: Map<usize, Cell>, b: Map<usize, u64>, tick: u32) -> Map<usize, Cell> {
    Map::new(
        |c: usize| m.contains_key(c) || b.contains_key(c),
        |c: usize|
            if b.contains_key(c) {
                Cell {
                    value: b[c],
                    added: if m.contains_key(c) { m[c].added } else { tick },
                    changed: tick,
                }
            } else {
                m[c]
            },
    )
}

/// `s` with the entry at `row` replaced by the last entry, and the last entry dropped.
pub open spec fn swap_removed(s: Seq<Entity>, row: int) -> Seq<Entity> {
    s.update(row, s.last()).drop_last()
}

/// The tick of a cell that a change filter reads: when it was added, or when
/// it was last changed.
pub open spec fn cell_tick(cell: Cell, added: bool) -> u32 {
    if added {
        cell.added
    } else {
        cell.changed
    }
}

/// Frames compose: what two steps both leave alone, the pair leaves alone.
pub proof fn lemma_frame_trans(a: World, b: World, c: World, e: Entity)
    requires
        a.others_unchanged(&b, e),
        b.others_unchanged(&c, e),
    ensures
        a.others_unchanged(&c, e),
{
    assert forall|e2: Entity| e2 != e && a.contains(e2) implies #[trigger] c.cells_of(e2) == a.cells_of(e2) by {
        assert(b.contains(e2));
        assert(b.cells_of(e2) == a.cells_of(e2));
    }
}

/// A step that leaves every entity alone leaves alone every entity other than `e`.
pub proof fn lemma_all_unchanged_others(a: World, b: World, e: Entity)
    requires
        a.all_unchanged(&b),
    ensures
        a.others_unchanged(&b, e),
{
}

/// Every living entity's location names a row of an existing archetype; that
/// row holds the entity, and the archetype's component set is exactly the
/// entity's component set, which each operation sets as its contract states.
pub proof fn lemma_live_entity_location(w: World, e: Entity)
    requires
        w.wf(),
        w.contains(e),
    ensures
        w.location_of(e).archetype < w.archetype_count(),
        w.location_of(e).row < w.archetype_len(w.location_of(e).archetype as int),
        w.archetype_entity(w.location_of(e).archetype as int, w.location_of(e).row as int) == e,
        elems(w.archetype_components(w.location_of(e).archetype as int)) == w.components_of(e),
{
    assert(w.slot_ok(e.index as int));
    let l = w.location_of(e);
    assert(w.row_ok(l.archetype as int, l.row as int));
    w.lemma_dom(e);
}

/// The rows of an archetype: its length is the length of its entity list and
/// of each of its columns, and each row holds a living entity located there.
pub proof fn lemma_archetype_rows(w: World, a: int)
    requires
        w.wf(),
        0 <= a < w.archetype_count(),
    ensures
        w.archetype_len(a) == w.archetype_entities(a).len(),
        strictly_sorted(w.archetype_components(a)),
        forall|r: int| 0 <= r < w.archetype_len(a) ==> #[trigger] w.archetype_entity(a, r) == w.archetype_entities(a)[r],
        forall|k: int| 0 <= k < w.archetype_components(a).len() ==> #[trigger] w.column_len(a, k) == w.archetype_len(a),
        forall|r: int| 0 <= r < w.archetype_len(a) ==> {
            &&& w.contains(#[trigger] w.archetype_entity(a, r))
            &&& w.location_of(w.archetype_entity(a, r)) == (EntityLocation { archetype: a as usize, row: r as usize })
        },
{
    assert(w.archetypes@[a].wf());
    assert forall|r: int| 0 <= r < w.archetype_len(a) implies {
        &&& w.contains(#[trigger] w.archetype_entity(a, r))
        &&& w.location_of(w.archetype_entity(a, r)) == (EntityLocation { archetype: a as usize, row: r as usize })
    } by {
        assert(w.row_ok(a, r));
    }
}

/// A handle whose slot has moved on to another generation (as `despawn`
/// leaves it) names no living entity, and no entity that `spawn` can hand out
/// for that slot, which takes the slot's current generation, is equal to it.
pub proof fn lemma_stale_handle(w: World, e: Entity, r: Entity)
    requires
        w.wf(),
        w.slot_generation(e.index) != e.generation,
        r.generation == w.slot_generation(r.index),
    ensures
        !w.contains(e),
        r != e,
{
}

/// Columns that two filters touch lie in archetypes that both filters admit.
pub proof fn lemma_used_columns_disjoint(w: World, f1: QueryFilter, s1: Set<usize>, f2: QueryFilter, s2: Set<usize>)
    requires
        w.wf(),
        forall|a: int| 0 <= a < w.archetype_count() ==> !(f1.matches_set(elems(#[trigger] w.archetype_components(a)))
            && f2.matches_set(elems(w.archetype_components(a)))),
    ensures
        w.used_columns(&f1, s1).disjoint(w.used_columns(&f2, s2)),
{
    assert forall|x: usize| w.used_columns(&f1, s1).contains(x) implies !w.used_columns(&f2, s2).contains(x) by {
        let (a, k) = choose|a: int, k: int| #[trigger] w.column_used(&f1, s1, a, k) && w.column_id(a, k) == x;
        if w.used_columns(&f2, s2).contains(x) {
            let (b, j) = choose|b: int, j: int| #[trigger] w.column_used(&f2, s2, b, j) && w.column_id(b, j) == x;
            assert(w.archetypes@[a].wf());
            assert(w.archetypes@[b].wf());
            assert(w.column_table@[x as int].0 == a);
            assert(w.column_table@[x as int].0 == b);
            assert(a == b);
            assert(f1.matches_set(elems(w.archetype_components(a))));
        }
    }
}

/// Two queries whose filters admit no common archetype use no common
/// archetype column, so their accesses as `World::query_access` computes them
/// do not conflict, even where both write the same component type.
pub proof fn lemma_disjoint_queries_do_not_conflict(
    w: World,
    f1: QueryFilter,
    reads1: Set<usize>,
    writes1: Set<usize>,
    acc1: Access,
    f2: QueryFilter,
    reads2: Set<usize>,
    writes2: Set<usize>,
    acc2: Access,
)
    requires
        w.wf(),
        forall|a: int| 0 <= a < w.archetype_count() ==> !(f1.matches_set(elems(#[trigger] w.archetype_components(a)))
            && f2.matches_set(elems(w.archetype_components(a)))),
        acc1.resources.rw_set().is_empty(),
        acc1.resources.write_set().is_empty(),
        acc1.archetype_components.rw_set() == w.used_columns(&f1, reads1.union(writes1)),
        acc1.archetype_components.write_set() == w.used_columns(&f1, writes1),
        acc2.resources.rw_set().is_empty(),
        acc2.resources.write_set().is_empty(),
        acc2.archetype_components.rw_set() == w.used_columns(&f2, reads2.union(writes2)),
        acc2.archetype_components.write_set() == w.used_columns(&f2, writes2),
    ensures
        !acc1.conflicts_spec(&acc2),
{
    lemma_used_columns_disjoint(w, f1, writes1, f2, reads2.union(writes2));
    lemma_used_columns_disjoint(w, f1, reads1.union(writes1), f2, writes2);
    assert(!acc1.resources.conflicts_spec(&acc2.resources));
    assert(!acc1.archetype_components.conflicts_spec(&acc2.archetype_components));
}

/// The store of all entities and their components.
#[derive(Debug)]
pub struct World {
    meta: Vec<EntityMeta>,
    free: Vec<u32>,
    archetypes: Vec<Archetype>,
    registry: ComponentRegistry,
    change_tick: u32,
    /// For each column access id, the archetype and the column that hold it.
    column_table: Vec<(usize, usize)>,
}

impl World {
    /// Row `r` of archetype `a` belongs to an entity whose slot points back at it.
    pub closed spec fn row_ok(&self, a: int, r: int) -> bool {
        let e = self.archetypes@[a].entities@[r];
        &&& e.index < self.meta@.len()
        &&& self.meta@[e.index as int].generation == e.generation
        &&& self.meta@[e.index as int].location is Some
        &&& self.meta@[e.index as int].location->Some_0.archetype == a
        &&& self.meta@[e.index as int].location->Some_0.row == r
    }

    /// Slot `i`, when it holds an entity, points at a row that names it.
    pub closed spec fn slot_ok(&self, i: int) -> bool {
        match self.meta@[i].location {
            Some(l) => {
                &&& l.archetype < self.archetypes@.len()
                &&& l.row < self.archetypes@[l.archetype as int].entities@.len()
                &&& self.archetypes@[l.archetype as int].entities@[l.row as int].index == i
            },
            None => true,
        }
    }

    pub closed spec fn wf(&self) -> bool {
        &&& self.registry.wf()
        &&& self.meta@.len() <= u32::MAX
        &&& forall|a: int| 0 <= a < self.archetypes@.len() ==> (#[trigger] self.archetypes@[a]).wf()
            && strictly_sorted(self.archetypes@[a].components@)
        &&& forall|a: int, k: int| 0 <= a < self.archetypes@.len() && 0 <= k < self.archetypes@[a].column_ids@.len()
            ==> (#[trigger] self.archetypes@[a].column_ids@[k]) < self.column_table@.len()
            && self.column_table@[self.archetypes@[a].column_ids@[k] as int].0 == a
            && self.column_table@[self.archetypes@[a].column_ids@[k] as int].1 == k
        &&& forall|a1: int, a2: int| 0 <= a1 < self.archetypes@.len() && 0 <= a2 < self.archetypes@.len() && a1 != a2
            ==> elems(#[trigger] self.archetypes@[a1].components@) != elems(#[trigger] self.archetypes@[a2].components@)
        &&& forall|a: int, r: int| 0 <= a < self.archetypes@.len() && 0 <= r < self.archetypes@[a].entities@.len()
            ==> #[trigger] self.row_ok(a, r)
        &&& forall|i: int| 0 <= i < self.meta@.len() ==> #[trigger] self.slot_ok(i)
        &&& forall|k: int| 0 <= k < self.free@.len() ==> (#[trigger] self.free@[k]) < self.meta@.len()
            && self.meta@[self.free@[k] as int].location is None
        &&& self.free@.no_duplicates()
    }

    /// Whether `e` names a living entity: its slot holds an entity of its generation.
    pub closed spec fn contains(&self, e: Entity) -> bool {
        &&& e.index < self.meta@.len()
        &&& self.meta@[e.index as int].generation == e.generation
        &&& self.meta@[e.index as int].location is Some
    }

    /// Where the components of a living entity are stored.
    pub closed spec fn location_of(&self, e: Entity) -> EntityLocation {
        self.meta@[e.index as int].location->Some_0
    }

    /// The component ids of the archetype in which a living entity is stored.
    pub closed spec fn archetype_ids(&self, e: Entity) -> Seq<usize> {
        self.archetypes@[self.location_of(e).archetype as int].components@
    }

    /// The component ids of the archetype of a living entity, as a set.
    pub closed spec fn stored_ids(&self, e: Entity) -> Set<usize> {
        elems(self.archetype_ids(e))
    }

    /// The component ids of a living entity.
    pub open spec fn components_of(&self, e: Entity) -> Set<usize> {
        self.cells_of(e).dom()
    }

    proof fn lemma_dom(&self, e: Entity)
        ensures
            self.components_of(e) == self.stored_ids(e),
    {
        assert(self.cells_of(e).dom() =~= self.stored_ids(e));
    }

    /// The stored value of component `c` of a living entity that has it.
    pub closed spec fn cell_of(&self, e: Entity, c: usize) -> Cell {
        self.archetypes@[self.location_of(e).archetype as int].cell(
            index_of(self.archetype_ids(e), c),
            self.location_of(e).row as int,
        )
    }

    /// The components of a living entity with their stored values.
    pub closed spec fn cells_of(&self, e: Entity) -> Map<usize, Cell> {
        Map::new(|c: usize| self.stored_ids(e).contains(c), |c: usize| self.cell_of(e, c))
    }

    /// The handle of the entity that slot `index` holds or will hold next.
    pub closed spec fn handle(&self, index: u32) -> Entity {
        Entity { index, generation: self.slot_generation(index) }
    }

    /// How many entity slots have been made; a slot is reused after its entity is despawned.
    pub closed spec fn slot_count(&self) -> nat {
        self.meta@.len()
    }

    /// The generation that slot `index` holds now (0 for a slot not yet made).
    pub closed spec fn slot_generation(&self, index: u32) -> u32 {
        if index < self.meta@.len() {
            self.meta@[index as int].generation
        } else {
            0
        }
    }

    pub closed spec fn tick(&self) -> u32 {
        self.change_tick
    }

    pub closed spec fn registry(&self) -> ComponentRegistry {
        self.registry
    }

    pub closed spec fn archetype_count(&self) -> nat {
        self.archetypes@.len()
    }

    pub closed spec fn archetype_components(&self, a: int) -> Seq<usize> {
        self.archetypes@[a].components@
    }

    /// The entity stored at row `r` of archetype `a`.
    pub closed spec fn archetype_entity(&self, a: int, r: int) -> Entity {
        self.archetypes@[a].entities@[r]
    }

    /// The entities of archetype `a`, by row.
    pub closed spec fn archetype_entities(&self, a: int) -> Seq<Entity> {
        self.archetypes@[a].entities@
    }

    /// The number of cells in column `k` of archetype `a`.
    pub closed spec fn column_len(&self, a: int, k: int) -> nat {
        self.archetypes@[a].columns@[k]@.len()
    }

    /// The entities of archetype `a`, or none for an archetype not made yet.
    pub open spec fn entities_or_empty(&self, a: int) -> Seq<Entity> {
        if 0 <= a < self.archetype_count() {
            self.archetype_entities(a)
        } else {
            Seq::empty()
        }
    }

    /// `n` is `self` with living entity `e` taken out of its row by
    /// swap-remove: the entity of the archetype's last row moves into the
    /// freed row (when that is not `e` itself), the archetype's entity list
    /// changes accordingly, and every other living entity keeps its location.
    pub open spec fn taken_out(&self, n: &World, e: Entity) -> bool {
        let l = self.location_of(e);
        let ents = self.archetype_entities(l.archetype as int);
        &&& n.archetype_entities(l.archetype as int) == swap_removed(ents, l.row as int)
        &&& ents.last() != e ==> n.location_of(ents.last()) == l
        &&& forall|e2: Entity| self.contains(e2) && e2 != e && e2 != ents.last()
            ==> #[trigger] n.location_of(e2) == self.location_of(e2)
    }

    /// `n` is `self` with living entity `e` either kept in its row, with every
    /// archetype's entities and every living entity's location unchanged, or
    /// taken out of its row by swap-remove and appended as the last row of
    /// another archetype (one made just now, when it is new).
    pub open spec fn moved_to(&self, n: &World, e: Entity) -> bool {
        let d = n.location_of(e).archetype as int;
        let src = self.location_of(e).archetype as int;
        if d == src {
            &&& n.location_of(e) == self.location_of(e)
            &&& forall|a: int| 0 <= a < self.archetype_count() ==> #[trigger] n.archetype_entities(a)
                == self.archetype_entities(a)
            &&& forall|e2: Entity| self.contains(e2) ==> #[trigger] n.location_of(e2) == self.location_of(e2)
        } else {
            &&& self.taken_out(n, e)
            &&& n.location_of(e).row == self.entities_or_empty(d).len()
            &&& n.archetype_entities(d) == self.entities_or_empty(d).push(e)
            &&& forall|a: int| 0 <= a < self.archetype_count() && a != src && a != d
                ==> #[trigger] n.archetype_entities(a) == self.archetype_entities(a)
        }
    }

    /// Every component id of `b` has been handed out by the registry.
    pub open spec fn registered(&self, b: &Bundle) -> bool {
        forall|k: int| 0 <= k < b.ids@.len() ==> (#[trigger] b.ids@[k]) < self.registry().infos().len()
    }

    /// The number of rows of archetype `a`.
    pub closed spec fn archetype_len(&self, a: int) -> nat {
        self.archetypes@[a].entities@.len()
    }

    /// Nothing that a living entity other than `e` holds differs between `self` and `other`.
    pub open spec fn others_unchanged(&self, other: &World, e: Entity) -> bool {
        &&& forall|e2: Entity| e2 != e ==> (#[trigger] other.contains(e2)) == self.contains(e2)
        &&& forall|e2: Entity| e2 != e && self.contains(e2) ==> (#[trigger] other.cells_of(e2)) == self.cells_of(e2)
    }

    /// Nothing that any living entity holds differs between `self` and `other`.
    pub open spec fn all_unchanged(&self, other: &World) -> bool {
        &&& forall|e2: Entity| (#[trigger] other.contains(e2)) == self.contains(e2)
        &&& forall|e2: Entity| self.contains(e2) ==> (#[trigger] other.cells_of(e2)) == self.cells_of(e2)
    }

    /// An empty world.
    pub fn new() -> (r: World)
        ensures
            r.wf(),
            forall|e: Entity| !r.contains(e),
            r.slot_count() == 0,
            r.tick() == 0,
            r.archetype_count() == 0,
            r.registry().infos().len() == 0,
    {
        World {
            meta: Vec::new(),
            free: Vec::new(),
            archetypes: Vec::new(),
            registry: ComponentRegistry::new(),
            change_tick: 0,
            column_table: Vec::new(),
        }
    }

    /// The archetype whose component ids are exactly `ids`, made if there is none yet.
    fn archetype_for(&mut self, ids: Vec<usize>) -> (r: usize)
        requires
            old(self).wf(),
            ids@.no_duplicates(),
        ensures
            final(self).wf(),
            r < final(self).archetypes@.len(),
            elems(final(self).archetypes@[r as int].components@) == elems(ids@),
            final(self).meta == old(self).meta,
            final(self).free == old(self).free,
            final(self).registry == old(self).registry,
            final(self).change_tick == old(self).change_tick,
            final(self).archetypes@.len() >= old(self).archetypes@.len(),
            forall|a: int| 0 <= a < old(self).archetypes@.len() ==> #[trigger] final(self).archetypes@[a] == old(self).archetypes@[a],
            forall|a: int| 0 <= a < old(self).archetypes@.len() && elems(#[trigger] old(self).archetypes@[a].components@)
                == elems(ids@) ==> r == a,
            final(self).archetypes@.len() <= old(self).archetypes@.len() + 1,
            r >= old(self).archetypes@.len() ==> final(self).archetypes@[r as int].entities@.len() == 0,
            old(self).all_unchanged(&*final(self)),
    {
        let mut a: usize = 0;
        while a < self.archetypes.len()
            invariant
                a <= self.archetypes@.len(),
                *self == *old(self),
                self.wf(),
                forall|j: int| 0 <= j < a ==> elems(#[trigger] self.archetypes@[j].components@) != elems(ids@),
            decreases self.archetypes@.len() - a,
        {
            if same_ids(&self.archetypes[a].components, &ids) {
                return a;
            }
            a = a + 1;
        }
        let n = self.archetypes.len();
        let sorted = sorted_ids(&ids);
        let mut column_ids: Vec<usize> = Vec::new();
        let mut k: usize = 0;
        while k < sorted.len()
            invariant
                k <= sorted@.len(),
                elems(sorted@) == elems(ids@),
                column_ids@.len() == k,
                self.archetypes == old(self).archetypes,
                self.meta == old(self).meta,
                self.free == old(self).free,
                self.registry == old(self).registry,
                self.change_tick == old(self).change_tick,
                n == self.archetypes@.len(),
                self.column_table@.len() >= old(self).column_table@.len(),
                forall|p: int| 0 <= p < old(self).column_table@.len() ==> #[trigger] self.column_table@[p]
                    == old(self).column_table@[p],
                forall|j: int| 0 <= j < n ==> elems(#[trigger] old(self).archetypes@[j].components@) != elems(ids@),
                forall|j: int| 0 <= j < k ==> (#[trigger] column_ids@[j]) < self.column_table@.len()
                    && self.column_table@[column_ids@[j] as int].0 == n
                    && self.column_table@[column_ids@[j] as int].1 == j,
            decreases sorted@.len() - k,
        {
            let id = self.column_table.len();
            self.column_table.push((n, k));
            column_ids.push(id);
            k = k + 1;
        }
        let ghost new_ids = sorted@;
        self.archetypes.push(Archetype::new(sorted, column_ids));
        proof {
            assert forall|a1: int, a2: int| 0 <= a1 < self.archetypes@.len() && 0 <= a2 < self.archetypes@.len() && a1 != a2
                implies elems(#[trigger] self.archetypes@[a1].components@) != elems(#[trigger] self.archetypes@[a2].components@) by {
                if a1 < n && a2 < n {
                    assert(elems(old(self).archetypes@[a1].components@) != elems(old(self).archetypes@[a2].components@));
                } else if a1 == n {
                    assert(elems(old(self).archetypes@[a2].components@) != elems(new_ids));
                } else {
                    assert(elems(old(self).archetypes@[a1].components@) != elems(new_ids));
                }
            }
            assert forall|a2: int, k2: int| 0 <= a2 < self.archetypes@.len() && 0 <= k2 < self.archetypes@[a2].column_ids@.len()
                implies (#[trigger] self.archetypes@[a2].column_ids@[k2]) < self.column_table@.len()
                && self.column_table@[self.archetypes@[a2].column_ids@[k2] as int].0 == a2
                && self.column_table@[self.archetypes@[a2].column_ids@[k2] as int].1 == k2 by {
                if a2 < n {
                    assert(old(self).archetypes@[a2].column_ids@[k2] < old(self).column_table@.len());
                }
            }
            assert forall|a2: int, r2: int| 0 <= a2 < self.archetypes@.len() && 0 <= r2 < self.archetypes@[a2].entities@.len()
                implies #[trigger] self.row_ok(a2, r2) by {
                assert(old(self).row_ok(a2, r2));
            }
            assert forall|i: int| 0 <= i < self.meta@.len() implies #[trigger] self.slot_ok(i) by {
                assert(old(self).slot_ok(i));
            }
            assert forall|e2: Entity| old(self).contains(e2) implies #[trigger] self.cells_of(e2) == old(self).cells_of(e2) by {
                assert(old(self).slot_ok(e2.index as int));
                assert(self.cells_of(e2) =~= old(self).cells_of(e2));
            }
        }
        n
    }

    /// Takes a living entity out of its archetype by swap-remove, leaving its
    /// slot empty. The entity that filled the freed row is pointed at it.
    fn detach(&mut self, e: Entity)
        requires
            old(self).wf(),
            old(self).contains(e),
        ensures
            final(self).wf(),
            !final(self).contains(e),
            final(self).meta@.len() == old(self).meta@.len(),
            final(self).meta@[e.index as int] == (EntityMeta { generation: e.generation, location: None }),
            forall|i: int| 0 <= i < old(self).meta@.len() ==> (#[trigger] final(self).meta@[i]).generation
                == old(self).meta@[i].generation,
            final(self).free == old(self).free,
            final(self).registry == old(self).registry,
            final(self).change_tick == old(self).change_tick,
            final(self).archetypes@.len() == old(self).archetypes@.len(),
            forall|a: int| 0 <= a < old(self).archetypes@.len() ==> (#[trigger] final(self).archetypes@[a]).components@
                == old(self).archetypes@[a].components@,
            old(self).others_unchanged(&*final(self), e),
            old(self).taken_out(&*final(self), e),
            forall|a: int| 0 <= a < old(self).archetypes@.len() && a != old(self).location_of(e).archetype
                ==> #[trigger] final(self).archetypes@[a] == old(self).archetypes@[a],
    {
        let idx = e.index as usize;
        let loc = self.meta[idx].location.unwrap();
        let a = loc.archetype;
        let row = loc.row;
        proof {
            assert(old(self).slot_ok(idx as int));
        }
        let last = self.archetypes[a].len() - 1;
        let ghost moved = old(self).archetypes@[a as int].entities@[last as int];
        proof {
            assert(old(self).row_ok(a as int, last as int));
            assert(old(self).row_ok(a as int, row as int));
        }
        self.archetypes[a].swap_remove_row(row);
        if row < last {
            let m = self.archetypes[a].entities[row];
            assert(m == moved);
            self.meta.set(m.index as usize, EntityMeta { generation: m.generation, location: Some(EntityLocation { archetype: a, row }) });
        }
        self.meta.set(idx, EntityMeta { generation: e.generation, location: None });
        proof {
            let o = old(self);
            assert(moved.index != e.index ==> row < last);
            assert forall|a2: int| 0 <= a2 < self.archetypes@.len() implies (#[trigger] self.archetypes@[a2]).wf() by {
                assert(o.archetypes@[a2].wf());
            }
            assert forall|a2: int, k2: int| 0 <= a2 < self.archetypes@.len() && 0 <= k2 < self.archetypes@[a2].column_ids@.len()
                implies (#[trigger] self.archetypes@[a2].column_ids@[k2]) < self.column_table@.len()
                && self.column_table@[self.archetypes@[a2].column_ids@[k2] as int].0 == a2
                && self.column_table@[self.archetypes@[a2].column_ids@[k2] as int].1 == k2 by {
                assert(self.archetypes@[a2].column_ids@ == old(self).archetypes@[a2].column_ids@);
                assert(old(self).archetypes@[a2].column_ids@[k2] < old(self).column_table@.len());
            }
            assert forall|a1: int, a2: int| 0 <= a1 < self.archetypes@.len() && 0 <= a2 < self.archetypes@.len() && a1 != a2
                implies elems(#[trigger] self.archetypes@[a1].components@) != elems(#[trigger] self.archetypes@[a2].components@) by {
                assert(self.archetypes@[a1].components@ == old(self).archetypes@[a1].components@);
                assert(self.archetypes@[a2].components@ == old(self).archetypes@[a2].components@);
                assert(elems(old(self).archetypes@[a1].components@) != elems(old(self).archetypes@[a2].components@));
            }
            assert forall|a2: int, r2: int| 0 <= a2 < self.archetypes@.len() && 0 <= r2 < self.archetypes@[a2].entities@.len()
                implies #[trigger] self.row_ok(a2, r2) by {
                if a2 == a && r2 == row {
                    assert(self.archetypes@[a2].entities@[r2] == moved);
                } else {
                    assert(o.row_ok(a2, r2));
                    let ent = o.archetypes@[a2].entities@[r2];
                    assert(self.archetypes@[a2].entities@[r2] == ent);
                    assert(o.meta@[e.index as int].location == Some(loc));
                    assert(ent.index != e.index);
                    assert(ent.index != moved.index);
                    assert(self.meta@[ent.index as int] == o.meta@[ent.index as int]);
                }
            }
            assert forall|i: int| 0 <= i < self.meta@.len() implies #[trigger] self.slot_ok(i) by {
                assert(o.slot_ok(i));
                if i != e.index && i != moved.index {
                    if let Some(l) = o.meta@[i].location {
                        assert(o.row_ok(l.archetype as int, l.row as int));
                        if l.archetype == a {
                            assert(l.row != row);
                            assert(l.row != last);
                        }
                    }
                }
            }
            assert forall|k: int| 0 <= k < self.free@.len() implies (#[trigger] self.free@[k]) < self.meta@.len()
                && self.meta@[self.free@[k] as int].location is None by {
                assert(o.free@[k] < o.meta@.len() && o.meta@[o.free@[k] as int].location is None);
            }
            assert forall|e2: Entity|
                #![trigger self.contains(e2)]
                #![trigger self.cells_of(e2)]
                e2 != e implies {
                &&& self.contains(e2) == o.contains(e2)
                &&& o.contains(e2) ==> self.cells_of(e2) == o.cells_of(e2)
            } by {
                if o.contains(e2) {
                    let l = o.meta@[e2.index as int].location->Some_0;
                    assert(o.slot_ok(e2.index as int));
                    assert(o.row_ok(l.archetype as int, l.row as int));
                    if e2.index == moved.index {
                        assert(l.row == last);
                        assert forall|c: usize| self.stored_ids(e2).contains(c) implies
                            #[trigger] self.cell_of(e2, c) == o.cell_of(e2, c) by {
                            lemma_index_of_contains(o.archetype_ids(e2), c);
                        }
                    } else {
                        assert(e2.index != e.index);
                        if l.archetype == a {
                            assert(l.row != row && l.row != last);
                        }
                        assert forall|c: usize| self.stored_ids(e2).contains(c) implies
                            #[trigger] self.cell_of(e2, c) == o.cell_of(e2, c) by {
                            lemma_index_of_contains(o.archetype_ids(e2), c);
                        }
                    }
                    assert(self.cells_of(e2) =~= o.cells_of(e2));
                }
            }
            assert(o.others_unchanged(&*self, e));
            assert(o.archetype_entities(a as int)[row as int] == e);
            assert forall|e2: Entity| o.contains(e2) && e2 != e && e2 != moved
                implies #[trigger] self.location_of(e2) == o.location_of(e2) by {
                assert(o.slot_ok(e2.index as int));
                if e2.index == moved.index {
                    assert(o.row_ok(a as int, last as int));
                }
                assert(e2.index != e.index);
                assert(e2.index != moved.index);
            }
            if moved != e {
                assert(moved.index != e.index);
                assert(row < last);
            }
            assert(o.taken_out(&*self, e));
        }
    }

    /// Puts an entity into an empty slot `index`, at a new last row of archetype
    /// `a` that holds `cells`, one per column.
    fn attach(&mut self, index: u32, a: usize, cells: &Vec<Cell>) -> (r: usize)
        requires
            old(self).wf(),
            index < old(self).meta@.len(),
            old(self).meta@[index as int].location is None,
            !old(self).free@.contains(index),
            a < old(self).archetypes@.len(),
            cells@.len() == old(self).archetypes@[a as int].components@.len(),
        ensures
            final(self).wf(),
            r == old(self).archetypes@[a as int].entities@.len(),
            final(self).meta@ == old(self).meta@.update(
                index as int,
                EntityMeta {
                    generation: old(self).meta@[index as int].generation,
                    location: Some(EntityLocation { archetype: a, row: r }),
                },
            ),
            final(self).free == old(self).free,
            final(self).registry == old(self).registry,
            final(self).change_tick == old(self).change_tick,
            final(self).archetypes@.len() == old(self).archetypes@.len(),
            forall|a2: int| 0 <= a2 < old(self).archetypes@.len() ==> (#[trigger] final(self).archetypes@[a2]).components@
                == old(self).archetypes@[a2].components@,
            final(self).contains(old(self).handle(index)),
            final(self).location_of(old(self).handle(index)) == (EntityLocation { archetype: a, row: r }),
            final(self).stored_ids(old(self).handle(index)) == elems(old(self).archetypes@[a as int].components@),
            forall|c: usize| #[trigger] final(self).stored_ids(old(self).handle(index)).contains(c)
                ==> final(self).cells_of(old(self).handle(index))[c]
                == cells@[index_of(old(self).archetypes@[a as int].components@, c)],
            old(self).others_unchanged(&*final(self), old(self).handle(index)),
            final(self).archetypes@[a as int].entities@ == old(self).archetypes@[a as int].entities@.push(old(self).handle(index)),
            forall|a2: int| 0 <= a2 < old(self).archetypes@.len() && a2 != a
                ==> #[trigger] final(self).archetypes@[a2] == old(self).archetypes@[a2],
            forall|e2: Entity| old(self).contains(e2) ==> #[trigger] final(self).location_of(e2) == old(self).location_of(e2),
    {
        let generation = self.meta[index as usize].generation;
        let row = self.archetypes[a].len();
        let e = Entity { index, generation };
        self.archetypes[a].push_row(e, cells);
        self.meta.set(index as usize, EntityMeta { generation, location: Some(EntityLocation { archetype: a, row }) });
        proof {
            let o = old(self);
            assert(e == o.handle(index));
            assert forall|a2: int| 0 <= a2 < self.archetypes@.len() implies (#[trigger] self.archetypes@[a2]).wf() by {
                assert(o.archetypes@[a2].wf());
            }
            assert forall|a2: int, k2: int| 0 <= a2 < self.archetypes@.len() && 0 <= k2 < self.archetypes@[a2].column_ids@.len()
                implies (#[trigger] self.archetypes@[a2].column_ids@[k2]) < self.column_table@.len()
                && self.column_table@[self.archetypes@[a2].column_ids@[k2] as int].0 == a2
                && self.column_table@[self.archetypes@[a2].column_ids@[k2] as int].1 == k2 by {
                assert(self.archetypes@[a2].column_ids@ == o.archetypes@[a2].column_ids@);
                assert(o.archetypes@[a2].column_ids@[k2] < o.column_table@.len());
            }
            assert forall|a1: int, a2: int| 0 <= a1 < self.archetypes@.len() && 0 <= a2 < self.archetypes@.len() && a1 != a2
                implies elems(#[trigger] self.archetypes@[a1].components@) != elems(#[trigger] self.archetypes@[a2].components@) by {
                assert(self.archetypes@[a1].components@ == old(self).archetypes@[a1].components@);
                assert(self.archetypes@[a2].components@ == old(self).archetypes@[a2].components@);
                assert(elems(old(self).archetypes@[a1].components@) != elems(old(self).archetypes@[a2].components@));
            }
            assert forall|a2: int, r2: int| 0 <= a2 < self.archetypes@.len() && 0 <= r2 < self.archetypes@[a2].entities@.len()
                implies #[trigger] self.row_ok(a2, r2) by {
                if !(a2 == a && r2 == row) {
                    assert(o.row_ok(a2, r2));
                    assert(self.archetypes@[a2].entities@[r2] == o.archetypes@[a2].entities@[r2]);
                }
            }
            assert forall|i: int| 0 <= i < self.meta@.len() implies #[trigger] self.slot_ok(i) by {
                assert(o.slot_ok(i));
            }
            assert forall|k: int| 0 <= k < self.free@.len() implies (#[trigger] self.free@[k]) < self.meta@.len()
                && self.meta@[self.free@[k] as int].location is None by {
                assert(o.free@[k] < o.meta@.len() && o.meta@[o.free@[k] as int].location is None);
                assert(self.free@[k] != index);
            }
            assert forall|c: usize| #[trigger] self.stored_ids(e).contains(c) implies self.cells_of(e)[c]
                == cells@[index_of(o.archetypes@[a as int].components@, c)] by {
                lemma_index_of_contains(o.archetypes@[a as int].components@, c);
            }
            assert forall|e2: Entity|
                #![trigger self.contains(e2)]
                #![trigger self.cells_of(e2)]
                e2 != e implies {
                &&& self.contains(e2) == o.contains(e2)
                &&& o.contains(e2) ==> self.cells_of(e2) == o.cells_of(e2)
            } by {
                if o.contains(e2) {
                    let l = o.meta@[e2.index as int].location->Some_0;
                    assert(o.slot_ok(e2.index as int));
                    assert forall|c: usize| self.stored_ids(e2).contains(c) implies
                        #[trigger] self.cell_of(e2, c) == o.cell_of(e2, c) by {
                        lemma_index_of_contains(o.archetype_ids(e2), c);
                    }
                    assert(self.cells_of(e2) =~= o.cells_of(e2));
                } else if e2.index == index {
                    assert(e2.generation != generation);
                    assert(!self.contains(e2));
                } else if e2.index < o.meta@.len() {
                    assert(self.meta@[e2.index as int] == o.meta@[e2.index as int]);
                }
            }
            assert(o.others_unchanged(&*self, e));
            assert forall|e2: Entity| o.contains(e2) implies #[trigger] self.location_of(e2) == o.location_of(e2) by {
                assert(e2.index != index);
            }
        }
        row
    }

    /// Overwrites the cells of a living entity in place, one per column of its archetype.
    fn overwrite(&mut self, e: Entity, cells: &Vec<Cell>)
        requires
            old(self).wf(),
            old(self).contains(e),
            cells@.len() == old(self).archetype_ids(e).len(),
        ensures
            final(self).wf(),
            final(self).contains(e),
            final(self).meta == old(self).meta,
            final(self).free == old(self).free,
            final(self).registry == old(self).registry,
            final(self).change_tick == old(self).change_tick,
            final(self).archetypes@.len() == old(self).archetypes@.len(),
            forall|a2: int| 0 <= a2 < old(self).archetypes@.len() ==> (#[trigger] final(self).archetypes@[a2]).components@
                == old(self).archetypes@[a2].components@,
            final(self).stored_ids(e) == old(self).stored_ids(e),
            forall|c: usize| #[trigger] final(self).stored_ids(e).contains(c) ==> final(self).cells_of(e)[c]
                == cells@[index_of(old(self).archetype_ids(e), c)],
            old(self).others_unchanged(&*final(self), e),
            forall|a2: int| 0 <= a2 < old(self).archetypes@.len()
                ==> (#[trigger] final(self).archetypes@[a2]).entities@ == old(self).archetypes@[a2].entities@,
    {
        let loc = self.meta[e.index as usize].location.unwrap();
        let a = loc.archetype;
        let row = loc.row;
        proof {
            assert(old(self).slot_ok(e.index as int));
        }
        self.archetypes[a].set_row(row, cells);
        proof {
            let o = old(self);
            assert forall|a2: int| 0 <= a2 < self.archetypes@.len() implies (#[trigger] self.archetypes@[a2]).wf() by {
                assert(o.archetypes@[a2].wf());
            }
            assert forall|a2: int, k2: int| 0 <= a2 < self.archetypes@.len() && 0 <= k2 < self.archetypes@[a2].column_ids@.len()
                implies (#[trigger] self.archetypes@[a2].column_ids@[k2]) < self.column_table@.len()
                && self.column_table@[self.archetypes@[a2].column_ids@[k2] as int].0 == a2
                && self.column_table@[self.archetypes@[a2].column_ids@[k2] as int].1 == k2 by {
                assert(self.archetypes@[a2].column_ids@ == old(self).archetypes@[a2].column_ids@);
                assert(old(self).archetypes@[a2].column_ids@[k2] < old(self).column_table@.len());
            }
            assert forall|a1: int, a2: int| 0 <= a1 < self.archetypes@.len() && 0 <= a2 < self.archetypes@.len() && a1 != a2
                implies elems(#[trigger] self.archetypes@[a1].components@) != elems(#[trigger] self.archetypes@[a2].components@) by {
                assert(self.archetypes@[a1].components@ == old(self).archetypes@[a1].components@);
                assert(self.archetypes@[a2].components@ == old(self).archetypes@[a2].components@);
                assert(elems(old(self).archetypes@[a1].components@) != elems(old(self).archetypes@[a2].components@));
            }
            assert forall|a2: int, r2: int| 0 <= a2 < self.archetypes@.len() && 0 <= r2 < self.archetypes@[a2].entities@.len()
                implies #[trigger] self.row_ok(a2, r2) by {
                assert(o.row_ok(a2, r2));
            }
            assert forall|i: int| 0 <= i < self.meta@.len() implies #[trigger] self.slot_ok(i) by {
                assert(o.slot_ok(i));
            }
            assert forall|c: usize| #[trigger] self.stored_ids(e).contains(c) implies self.cells_of(e)[c]
                == cells@[index_of(o.archetype_ids(e), c)] by {
                lemma_index_of_contains(o.archetype_ids(e), c);
            }
            assert forall|e2: Entity|
                #![trigger self.contains(e2)]
                #![trigger self.cells_of(e2)]
                e2 != e implies {
                &&& self.contains(e2) == o.contains(e2)
                &&& o.contains(e2) ==> self.cells_of(e2) == o.cells_of(e2)
            } by {
                if o.contains(e2) {
                    let l = o.meta@[e2.index as int].location->Some_0;
                    assert(o.slot_ok(e2.index as int));
                    assert(o.row_ok(l.archetype as int, l.row as int));
                    assert(e2.index != e.index);
                    assert(o.slot_ok(e.index as int));
                    if l.archetype == a {
                        assert(l.row != row);
                    }
                    assert forall|c: usize| self.stored_ids(e2).contains(c) implies
                        #[trigger] self.cell_of(e2, c) == o.cell_of(e2, c) by {
                        lemma_index_of_contains(o.archetype_ids(e2), c);
                    }
                    assert(self.cells_of(e2) =~= o.cells_of(e2));
                }
            }
        }
    }

    /// Puts a living entity into archetype `dst` with the given cells, one per
    /// column of `dst`: in place when it is already there, else by moving it.
    fn relocate(&mut self, e: Entity, dst: usize, cells: &Vec<Cell>)
        requires
            old(self).wf(),
            old(self).contains(e),
            dst < old(self).archetypes@.len(),
            cells@.len() == old(self).archetypes@[dst as int].components@.len(),
        ensures
            final(self).wf(),
            final(self).contains(e),
            final(self).meta@.len() == old(self).meta@.len(),
            final(self).free == old(self).free,
            final(self).registry == old(self).registry,
            final(self).change_tick == old(self).change_tick,
            final(self).archetypes@.len() == old(self).archetypes@.len(),
            forall|a2: int| 0 <= a2 < old(self).archetypes@.len() ==> (#[trigger] final(self).archetypes@[a2]).components@
                == old(self).archetypes@[a2].components@,
            final(self).stored_ids(e) == elems(old(self).archetypes@[dst as int].components@),
            forall|c: usize| #[trigger] final(self).stored_ids(e).contains(c) ==> final(self).cells_of(e)[c]
                == cells@[index_of(old(self).archetypes@[dst as int].components@, c)],
            old(self).others_unchanged(&*final(self), e),
            forall|i: int| 0 <= i < old(self).meta@.len() ==> (#[trigger] final(self).meta@[i]).generation
                == old(self).meta@[i].generation,
            old(self).location_of(e).archetype == dst ==> final(self).location_of(e) == old(self).location_of(e),
            old(self).location_of(e).archetype == dst ==> final(self).meta == old(self).meta,
            old(self).location_of(e).archetype == dst ==> forall|a2: int| 0 <= a2 < old(self).archetypes@.len()
                ==> (#[trigger] final(self).archetypes@[a2]).entities@ == old(self).archetypes@[a2].entities@,
            old(self).location_of(e).archetype != dst ==> {
                &&& old(self).taken_out(&*final(self), e)
                &&& final(self).archetypes@[dst as int].entities@ == old(self).archetypes@[dst as int].entities@.push(e)
                &&& final(self).location_of(e).archetype == dst
                &&& final(self).location_of(e).row == old(self).archetypes@[dst as int].entities@.len()
                &&& forall|a2: int| 0 <= a2 < old(self).archetypes@.len() && a2 != dst
                    && a2 != old(self).location_of(e).archetype
                    ==> (#[trigger] final(self).archetypes@[a2]).entities@ == old(self).archetypes@[a2].entities@
            },
    {
        let loc = self.meta[e.index as usize].location.unwrap();
        if loc.archetype == dst {
            self.overwrite(e, cells);
        } else {
            proof {
                let o = old(self);
                if o.free@.contains(e.index) {
                    let k = choose|k: int| 0 <= k < o.free@.len() && o.free@[k] == e.index;
                    assert(o.meta@[o.free@[k] as int].location is None);
                }
            }
            let ghost mid = *self;
            self.detach(e);
            let ghost mid2 = *self;
            let _ = self.attach(e.index, dst, cells);
            proof {
                let o = *old(self);
                assert(mid2.handle(e.index) == e);
                lemma_frame_trans(o, mid2, *self, e);
                let l = o.location_of(e);
                let ents = o.archetype_entities(l.archetype as int);
                assert(o.slot_ok(e.index as int));
                assert(loc == l);
                assert(mid2.archetypes@[dst as int] == o.archetypes@[dst as int]);
                assert(self.archetypes@[l.archetype as int] == mid2.archetypes@[l.archetype as int]);
                if ents.last() != e {
                    assert(o.row_ok(l.archetype as int, ents.len() - 1));
                    assert(o.contains(ents.last()));
                    assert(mid2.contains(ents.last()));
                    assert(self.location_of(ents.last()) == mid2.location_of(ents.last()));
                }
                assert forall|e2: Entity| o.contains(e2) && e2 != e && e2 != ents.last()
                    implies #[trigger] self.location_of(e2) == o.location_of(e2) by {
                    assert(mid2.contains(e2));
                    assert(mid2.location_of(e2) == o.location_of(e2));
                    assert(self.location_of(e2) == mid2.location_of(e2));
                }
                assert(o.taken_out(&*self, e));
            }
        }
    }

    /// Makes a new entity that holds the components of `bundle`, stamped with
    /// the current tick. A freed slot is reused, under its next generation.
    pub fn spawn(&mut self, bundle: &Bundle) -> (r: Entity)
        requires
            old(self).wf(),
            bundle.wf(),
            old(self).registered(bundle),
            old(self).slot_count() < u32::MAX,
        ensures
            final(self).wf(),
            !old(self).contains(r),
            final(self).contains(r),
            r.generation == old(self).slot_generation(r.index),
            final(self).cells_of(r) == spawned(bundle.view(), old(self).tick()),
            old(self).others_unchanged(&*final(self), r),
            final(self).tick() == old(self).tick(),
            final(self).registry() == old(self).registry(),
            final(self).slot_count() <= old(self).slot_count() + 1,
            forall|i: u32| i != r.index ==> #[trigger] final(self).slot_generation(i) == old(self).slot_generation(i),
            final(self).location_of(r).archetype < final(self).archetype_count(),
            elems(final(self).archetype_components(final(self).location_of(r).archetype as int)) == bundle.view().dom(),
            final(self).location_of(r).row == old(self).entities_or_empty(final(self).location_of(r).archetype as int).len(),
            final(self).archetype_entities(final(self).location_of(r).archetype as int)
                == old(self).entities_or_empty(final(self).location_of(r).archetype as int).push(r),
            old(self).archetype_count() <= final(self).archetype_count() <= old(self).archetype_count() + 1,
            forall|a: int| 0 <= a < old(self).archetype_count() ==> #[trigger] final(self).archetype_components(a)
                == old(self).archetype_components(a),
            forall|a: int| 0 <= a < old(self).archetype_count() && elems(#[trigger] old(self).archetype_components(a))
                == bundle.view().dom() ==> final(self).location_of(r).archetype == a,
            forall|a: int| 0 <= a < old(self).archetype_count() && a != final(self).location_of(r).archetype
                ==> #[trigger] final(self).archetype_entities(a) == old(self).archetype_entities(a),
            forall|e2: Entity| old(self).contains(e2) ==> #[trigger] final(self).location_of(e2) == old(self).location_of(e2),
    {
        let ids = bundle.component_ids();
        let a = self.archetype_for(ids);
        let ghost s1 = *self;
        let tick = self.change_tick;
        let n = self.archetypes[a].components.len();
        let mut cells: Vec<Cell> = Vec::new();
        let mut k: usize = 0;
        while k < n
            invariant
                *self == s1,
                s1.wf(),
                a < s1.archetypes@.len(),
                n == s1.archetypes@[a as int].components@.len(),
                bundle.wf(),
                elems(s1.archetypes@[a as int].components@) == elems(bundle.ids@),
                tick == s1.change_tick,
                k <= n,
                cells@.len() == k,
                forall|j: int| 0 <= j < k ==> #[trigger] cells@[j]
                    == spawned(bundle.view(), tick)[s1.archetypes@[a as int].components@[j]],
            decreases n - k,
        {
            let c = self.archetypes[a].components[k];
            proof {
                assert(s1.archetypes@[a as int].components@.contains(c));
                assert(elems(bundle.ids@).contains(c));
            }
            let j = position(&bundle.ids, c).unwrap();
            proof {
                lemma_bundle_lookup(*bundle, j as int);
            }
            cells.push(Cell { value: bundle.values[j], added: tick, changed: tick });
            k = k + 1;
        }
        let ghost s2 = *self;
        let index: u32 = match self.free.pop() {
            Some(i) => i,
            None => {
                let i = self.meta.len() as u32;
                self.meta.push(EntityMeta { generation: 0, location: None });
                i
            },
        };
        proof {
            let o = s2;
            if o.free@.len() > 0 {
                assert(index == o.free@[o.free@.len() - 1]);
                assert(self.free@ =~= o.free@.subrange(0, o.free@.len() - 1));
                assert(o.meta@[index as int].location is None);
                assert forall|k2: int| 0 <= k2 < self.free@.len() implies (#[trigger] self.free@[k2]) != index by {
                    assert(o.free@[k2] == self.free@[k2]);
                }
                assert forall|k2: int| 0 <= k2 < self.free@.len() implies (#[trigger] self.free@[k2]) < self.meta@.len()
                    && self.meta@[self.free@[k2] as int].location is None by {
                    assert(o.free@[k2] == self.free@[k2]);
                    assert(o.free@[k2] < o.meta@.len() && o.meta@[o.free@[k2] as int].location is None);
                }
                assert forall|i: int, j: int| 0 <= i < self.free@.len() && 0 <= j < self.free@.len() && i != j
                    implies self.free@[i] != self.free@[j] by {
                    assert(o.free@[i] != o.free@[j]);
                }
                assert forall|a2: int, r2: int| 0 <= a2 < self.archetypes@.len() && 0 <= r2 < self.archetypes@[a2].entities@.len()
                    implies #[trigger] self.row_ok(a2, r2) by {
                    assert(o.row_ok(a2, r2));
                }
                assert forall|i: int| 0 <= i < self.meta@.len() implies #[trigger] self.slot_ok(i) by {
                    assert(o.slot_ok(i));
                }
            } else {
                assert(index as int == o.meta@.len());
                assert forall|k2: int| 0 <= k2 < self.free@.len() implies (#[trigger] self.free@[k2]) != index by {
                    assert(o.free@[k2] < o.meta@.len());
                }
                assert forall|a2: int, r2: int| 0 <= a2 < self.archetypes@.len() && 0 <= r2 < self.archetypes@[a2].entities@.len()
                    implies #[trigger] self.row_ok(a2, r2) by {
                    assert(o.row_ok(a2, r2));
                }
                assert forall|i: int| 0 <= i < self.meta@.len() implies #[trigger] self.slot_ok(i) by {
                    if i < o.meta@.len() {
                        assert(o.slot_ok(i));
                    }
                }
                assert forall|k2: int| 0 <= k2 < self.free@.len() implies (#[trigger] self.free@[k2]) < self.meta@.len()
                    && self.meta@[self.free@[k2] as int].location is None by {
                    assert(o.free@[k2] < o.meta@.len());
                }
            }
            assert(self.wf());
            assert forall|e2: Entity|
                #![trigger self.contains(e2)]
                #![trigger self.cells_of(e2)]
                true implies {
                &&& self.contains(e2) == o.contains(e2)
                &&& o.contains(e2) ==> self.cells_of(e2) == o.cells_of(e2)
            } by {
                if o.contains(e2) {
                    assert(self.meta@[e2.index as int] == o.meta@[e2.index as int]);
                    assert(self.cells_of(e2) =~= o.cells_of(e2));
                } else if e2.index < o.meta@.len() {
                    assert(self.meta@[e2.index as int] == o.meta@[e2.index as int]);
                }
            }
            assert(o.all_unchanged(&*self));
            assert(!self.free@.contains(index));
        }
        let ghost s3 = *self;
        let _ = self.attach(index, a, &cells);
        let r = Entity { index, generation: self.meta[index as usize].generation };
        proof {
            let o = old(self);
            assert(r == s3.handle(index));
            assert(s3.others_unchanged(&*self, r));
            assert(s1.others_unchanged(&s3, r));
            lemma_frame_trans(s1, s3, *self, r);
            lemma_frame_trans(*o, s1, *self, r);
            assert(self.stored_ids(r) =~= spawned(bundle.view(), tick).dom());
            assert forall|c: usize| #[trigger] self.stored_ids(r).contains(c) implies self.cells_of(r)[c]
                == spawned(bundle.view(), tick)[c] by {
                lemma_index_of_contains(s1.archetypes@[a as int].components@, c);
            }
            assert(self.cells_of(r) =~= spawned(bundle.view(), tick));
            if o.free@.len() > 0 {
                assert(o.free@.contains(index));
            }
            assert(self.location_of(r).archetype == a);
            assert(s3.archetypes@[a as int] == s1.archetypes@[a as int]);
            if a < o.archetypes@.len() {
                assert(s1.archetypes@[a as int] == o.archetypes@[a as int]);
            } else {
                assert(o.entities_or_empty(a as int) =~= Seq::<Entity>::empty());
            }
            assert(elems(bundle.ids@) =~= bundle.view().dom());
            assert forall|e2: Entity| o.contains(e2) implies #[trigger] self.location_of(e2) == o.location_of(e2) by {
                assert(s1.contains(e2));
                assert(s3.contains(e2));
                assert(s3.meta@[e2.index as int] == s1.meta@[e2.index as int]);
            }
            assert forall|a2: int| 0 <= a2 < o.archetype_count() && a2 != a
                implies #[trigger] self.archetype_entities(a2) == o.archetype_entities(a2) by {
                assert(s1.archetypes@[a2] == o.archetypes@[a2]);
            }
            assert forall|a2: int| 0 <= a2 < o.archetype_count() implies #[trigger] self.archetype_components(a2)
                == o.archetype_components(a2) by {
                assert(s1.archetypes@[a2] == o.archetypes@[a2]);
            }
        }
        r
    }

    /// Removes a living entity and its components. Its slot's generation moves
    /// on, so the handle stays dead even once the slot is reused. A handle
    /// that names no living entity changes nothing and gives `false`.
    pub fn despawn(&mut self, e: Entity) -> (r: bool)
        requires
            old(self).wf(),
        ensures
            final(self).wf(),
            r == old(self).contains(e),
            !final(self).contains(e),
            !r ==> *final(self) == *old(self),
            r ==> final(self).slot_generation(e.index) != e.generation,
            r ==> old(self).taken_out(&*final(self), e),
            r ==> final(self).archetype_count() == old(self).archetype_count(),
            forall|a: int| 0 <= a < old(self).archetype_count() ==> #[trigger] final(self).archetype_components(a)
                == old(self).archetype_components(a),
            r ==> forall|a: int| 0 <= a < old(self).archetype_count() && a != old(self).location_of(e).archetype
                ==> #[trigger] final(self).archetype_entities(a) == old(self).archetype_entities(a),
            forall|i: u32| i != e.index ==> #[trigger] final(self).slot_generation(i) == old(self).slot_generation(i),
            old(self).others_unchanged(&*final(self), e),
            final(self).tick() == old(self).tick(),
            final(self).registry() == old(self).registry(),
            final(self).slot_count() == old(self).slot_count(),
    {
        if !self.is_alive(e) {
            return false;
        }
        proof {
            let o = old(self);
            if o.free@.contains(e.index) {
                let k = choose|k: int| 0 <= k < o.free@.len() && o.free@[k] == e.index;
                assert(o.meta@[o.free@[k] as int].location is None);
            }
        }
        self.detach(e);
        let ghost s1 = *self;
        let idx = e.index as usize;
        self.meta.set(idx, EntityMeta { generation: e.generation.wrapping_add(1), location: None });
        self.free.push(e.index);
        proof {
            let o = s1;
            assert forall|a2: int, r2: int| 0 <= a2 < self.archetypes@.len() && 0 <= r2 < self.archetypes@[a2].entities@.len()
                implies #[trigger] self.row_ok(a2, r2) by {
                assert(o.row_ok(a2, r2));
            }
            assert forall|i: int| 0 <= i < self.meta@.len() implies #[trigger] self.slot_ok(i) by {
                assert(o.slot_ok(i));
            }
            assert forall|k2: int| 0 <= k2 < self.free@.len() implies (#[trigger] self.free@[k2]) < self.meta@.len()
                && self.meta@[self.free@[k2] as int].location is None by {
                if k2 < o.free@.len() {
                    assert(o.free@[k2] == self.free@[k2]);
                    assert(o.free@[k2] < o.meta@.len() && o.meta@[o.free@[k2] as int].location is None);
                }
            }
            assert forall|i: int, j: int| 0 <= i < self.free@.len() && 0 <= j < self.free@.len() && i != j
                implies self.free@[i] != self.free@[j] by {
                if i < o.free@.len() && j < o.free@.len() {
                    assert(o.free@[i] != o.free@[j]);
                }
            }
            assert(self.wf());
            assert forall|e2: Entity|
                #![trigger self.contains(e2)]
                #![trigger self.cells_of(e2)]
                e2 != e implies {
                &&& self.contains(e2) == o.contains(e2)
                &&& o.contains(e2) ==> self.cells_of(e2) == o.cells_of(e2)
            } by {
                if e2.index < o.meta@.len() && e2.index != e.index {
                    assert(self.meta@[e2.index as int] == o.meta@[e2.index as int]);
                    if o.contains(e2) {
                        assert(self.cells_of(e2) =~= o.cells_of(e2));
                    }
                }
            }
            lemma_frame_trans(*old(self), s1, *self, e);
            let oo = *old(self);
            let l = oo.location_of(e);
            let ents = oo.archetype_entities(l.archetype as int);
            assert(oo.slot_ok(e.index as int));
            if ents.last() != e {
                assert(oo.row_ok(l.archetype as int, ents.len() - 1));
                assert(ents.last().index != e.index);
                assert(self.location_of(ents.last()) == s1.location_of(ents.last()));
            }
            assert forall|e2: Entity| oo.contains(e2) && e2 != e && e2 != ents.last()
                implies #[trigger] self.location_of(e2) == oo.location_of(e2) by {
                assert(e2.index != e.index);
                assert(s1.location_of(e2) == oo.location_of(e2));
            }
            assert(oo.taken_out(&*self, e));
        }
        true
    }

    /// Adds the components of `bundle` to a living entity, or overwrites those it
    /// has, stamped with the current tick. The entity moves to the archetype of
    /// its new component set, or stays in place when that set is unchanged.
    pub fn insert(&mut self, e: Entity, bundle: &Bundle) -> (r: Result<(), EntityError>)
        requires
            old(self).wf(),
            bundle.wf(),
            old(self).registered(bundle),
        ensures
            final(self).wf(),
            r is Err <==> !old(self).contains(e),
            r is Err ==> *final(self) == *old(self),
            r is Ok ==> final(self).contains(e),
            r is Ok ==> final(self).cells_of(e) == inserted(old(self).cells_of(e), bundle.view(), old(self).tick()),
            r is Ok && bundle.view().dom().subset_of(old(self).components_of(e))
                ==> final(self).location_of(e) == old(self).location_of(e),
            r is Ok ==> old(self).moved_to(&*final(self), e),
            old(self).archetype_count() <= final(self).archetype_count() <= old(self).archetype_count() + 1,
            forall|a: int| 0 <= a < old(self).archetype_count() ==> #[trigger] final(self).archetype_components(a)
                == old(self).archetype_components(a),
            old(self).others_unchanged(&*final(self), e),
            final(self).tick() == old(self).tick(),
            final(self).registry() == old(self).registry(),
            final(self).slot_count() == old(self).slot_count(),
            forall|i: u32| #[trigger] final(self).slot_generation(i) == old(self).slot_generation(i),
    {
        if !self.is_alive(e) {
            return Err(EntityError::NoSuchEntity);
        }
        let loc = self.meta[e.index as usize].location.unwrap();
        let src = loc.archetype;
        let row = loc.row;
        proof {
            assert(old(self).slot_ok(e.index as int));
        }
        let src_cells = self.archetypes[src].row_cells(row);
        let src_ids = copy_ids(&self.archetypes[src].components);
        let mut ids = copy_ids(&src_ids);
        let mut i: usize = 0;
        while i < bundle.ids.len()
            invariant
                bundle.wf(),
                i <= bundle.ids@.len(),
                ids@.no_duplicates(),
                elems(ids@) == elems(src_ids@).union(elems(bundle.ids@.subrange(0, i as int))),
            decreases bundle.ids@.len() - i,
        {
            let c = bundle.ids[i];
            proof {
                lemma_elems_prefix(bundle.ids@, i as int);
            }
            if !vec_contains(&ids, c) {
                proof {
                    lemma_elems_push(ids@, c);
                }
                ids.push(c);
            }
            i = i + 1;
            proof {
                assert(elems(ids@) =~= elems(src_ids@).union(elems(bundle.ids@.subrange(0, i as int))));
            }
        }
        proof {
            assert(bundle.ids@.subrange(0, i as int) =~= bundle.ids@);
        }
        let dst = self.archetype_for(ids);
        proof {
            let o = old(self);
            if bundle.view().dom().subset_of(o.stored_ids(e)) {
                assert(elems(src_ids@).union(elems(bundle.ids@)) =~= elems(src_ids@));
            }
        }
        let ghost s1 = *self;
        let ghost m = old(self).cells_of(e);
        let ghost target = inserted(m, bundle.view(), old(self).change_tick);
        let tick = self.change_tick;
        let n = self.archetypes[dst].components.len();
        let mut cells: Vec<Cell> = Vec::new();
        let mut k: usize = 0;
        while k < n
            invariant
                *self == s1,
                s1.wf(),
                dst < s1.archetypes@.len(),
                n == s1.archetypes@[dst as int].components@.len(),
                bundle.wf(),
                elems(s1.archetypes@[dst as int].components@) == elems(src_ids@).union(elems(bundle.ids@)),
                src_ids@ == old(self).archetype_ids(e),
                src_ids@.no_duplicates(),
                src_cells@.len() == src_ids@.len(),
                forall|j: int| 0 <= j < src_ids@.len() ==> #[trigger] m[src_ids@[j]] == src_cells@[j],
                forall|c: usize| #[trigger] m.contains_key(c) <==> src_ids@.contains(c),
                target == inserted(m, bundle.view(), tick),
                k <= n,
                cells@.len() == k,
                forall|j: int| 0 <= j < k ==> #[trigger] cells@[j] == target[s1.archetypes@[dst as int].components@[j]],
            decreases n - k,
        {
            let c = self.archetypes[dst].components[k];
            proof {
                assert(s1.archetypes@[dst as int].components@.contains(c));
                assert(elems(s1.archetypes@[dst as int].components@).contains(c));
            }
            let cell = match position(&bundle.ids, c) {
                Some(j) => {
                    proof {
                        lemma_bundle_lookup(*bundle, j as int);
                    }
                    let added = match position(&src_ids, c) {
                        Some(i2) => src_cells[i2].added,
                        None => tick,
                    };
                    Cell { value: bundle.values[j], added, changed: tick }
                },
                None => {
                    let i2 = position(&src_ids, c).unwrap();
                    src_cells[i2]
                },
            };
            cells.push(cell);
            k = k + 1;
        }
        self.relocate(e, dst, &cells);
        proof {
            let o = old(self);
            assert(o.all_unchanged(&s1));
            lemma_all_unchanged_others(*o, s1, e);
            lemma_frame_trans(*o, s1, *self, e);
            assert(self.stored_ids(e) =~= target.dom());
            assert forall|c: usize| #[trigger] self.stored_ids(e).contains(c) implies self.cells_of(e)[c]
                == target[c] by {
                lemma_index_of_contains(s1.archetypes@[dst as int].components@, c);
            }
            assert(self.cells_of(e) =~= target);
            let l = o.location_of(e);
            assert(o.slot_ok(e.index as int));
            assert(s1.location_of(e) == l);
            assert(s1.archetypes@[l.archetype as int] == o.archetypes@[l.archetype as int]);
            if dst < o.archetypes@.len() {
                assert(s1.archetypes@[dst as int] == o.archetypes@[dst as int]);
            } else {
                assert(o.entities_or_empty(dst as int) =~= Seq::<Entity>::empty());
            }
            if l.archetype != dst {
                let ents = o.archetype_entities(l.archetype as int);
                assert forall|e2: Entity| o.contains(e2) && e2 != e && e2 != ents.last()
                    implies #[trigger] self.location_of(e2) == o.location_of(e2) by {
                    assert(s1.contains(e2));
                }
                assert forall|a2: int| 0 <= a2 < o.archetype_count() && a2 != l.archetype && a2 != dst
                    implies #[trigger] self.archetype_entities(a2) == o.archetype_entities(a2) by {
                    assert(s1.archetypes@[a2] == o.archetypes@[a2]);
                }
                assert(o.taken_out(&*self, e));
                assert(self.location_of(e).row == o.entities_or_empty(dst as int).len());
                assert(self.archetype_entities(dst as int) == o.entities_or_empty(dst as int).push(e));
            } else {
                assert forall|a2: int| 0 <= a2 < o.archetype_count()
                    implies #[trigger] self.archetype_entities(a2) == o.archetype_entities(a2) by {
                    assert(s1.archetypes@[a2] == o.archetypes@[a2]);
                }
                assert(self.meta == s1.meta);
                assert forall|e2: Entity| o.contains(e2) implies #[trigger] self.location_of(e2) == o.location_of(e2) by {
                    assert(s1.contains(e2));
                }
                assert(self.location_of(e) == o.location_of(e));
            }
            assert(self.location_of(e).archetype == dst);
            assert(o.moved_to(&*self, e));
            assert forall|i2: u32| #[trigger] self.slot_generation(i2) ==  o.slot_generation(i2) by {
                if i2 < o.meta@.len() {
                    assert(self.meta@[i2 as int].generation == s1.meta@[i2 as int].generation);
                }
            }
        }
        Ok(())
    }

    /// Takes the components `ids` off a living entity; ids that it does not
    /// have are passed over. Gives `Ok(false)`, changing nothing, when it has
    /// none of them, and `Ok(true)` once it has moved to the archetype of the
    /// components that remain.
    pub fn remove(&mut self, e: Entity, ids: &Vec<usize>) -> (r: Result<bool, EntityError>)
        requires
            old(self).wf(),
        ensures
            final(self).wf(),
            r is Err <==> !old(self).contains(e),
            r is Err ==> *final(self) == *old(self),
            r matches Ok(changed) ==> changed == !old(self).components_of(e).disjoint(elems(ids@)),
            r == Ok::<bool, EntityError>(false) ==> *final(self) == *old(self),
            r is Ok ==> final(self).contains(e),
            r is Ok ==> final(self).cells_of(e) == old(self).cells_of(e).remove_keys(elems(ids@)),
            r is Ok ==> old(self).moved_to(&*final(self), e),
            old(self).archetype_count() <= final(self).archetype_count() <= old(self).archetype_count() + 1,
            forall|a: int| 0 <= a < old(self).archetype_count() ==> #[trigger] final(self).archetype_components(a)
                == old(self).archetype_components(a),
            old(self).others_unchanged(&*final(self), e),
            final(self).tick() == old(self).tick(),
            final(self).registry() == old(self).registry(),
            final(self).slot_count() == old(self).slot_count(),
            forall|i: u32| #[trigger] final(self).slot_generation(i) == old(self).slot_generation(i),
    {
        if !self.is_alive(e) {
            return Err(EntityError::NoSuchEntity);
        }
        let loc = self.meta[e.index as usize].location.unwrap();
        let src = loc.archetype;
        let row = loc.row;
        proof {
            assert(old(self).slot_ok(e.index as int));
        }
        let src_cells = self.archetypes[src].row_cells(row);
        let src_ids = copy_ids(&self.archetypes[src].components);
        let mut kept: Vec<usize> = Vec::new();
        let mut removed = false;
        let mut i: usize = 0;
        while i < src_ids.len()
            invariant
                i <= src_ids@.len(),
                src_ids@.no_duplicates(),
                kept@.no_duplicates(),
                elems(kept@) == elems(src_ids@.subrange(0, i as int)).difference(elems(ids@)),
                removed == !elems(src_ids@.subrange(0, i as int)).disjoint(elems(ids@)),
            decreases src_ids@.len() - i,
        {
            let c = src_ids[i];
            proof {
                lemma_elems_prefix(src_ids@, i as int);
            }
            if vec_contains(ids, c) {
                removed = true;
                proof {
                    assert(elems(src_ids@.subrange(0, i + 1)).contains(c) && elems(ids@).contains(c));
                }
            } else {
                proof {
                    if kept@.contains(c) {
                        assert(elems(kept@).contains(c));
                        assert(src_ids@.subrange(0, i as int).contains(c));
                        let j = choose|j: int| 0 <= j < i && src_ids@.subrange(0, i as int)[j] == c;
                        assert(src_ids@[j] == src_ids@[i as int]);
                    }
                    lemma_elems_push(kept@, c);
                }
                kept.push(c);
            }
            i = i + 1;
            proof {
                assert(elems(kept@) =~= elems(src_ids@.subrange(0, i as int)).difference(elems(ids@)));
                assert(removed == !elems(src_ids@.subrange(0, i as int)).disjoint(elems(ids@)));
            }
        }
        proof {
            assert(src_ids@.subrange(0, i as int) =~= src_ids@);
        }
        if !removed {
            proof {
                let o = old(self);
                assert(o.cells_of(e).remove_keys(elems(ids@)) =~= o.cells_of(e));
            }
            return Ok(false);
        }
        let dst = self.archetype_for(kept);
        let ghost s1 = *self;
        let ghost m = old(self).cells_of(e);
        let ghost target = m.remove_keys(elems(ids@));
        let n = self.archetypes[dst].components.len();
        let mut cells: Vec<Cell> = Vec::new();
        let mut k: usize = 0;
        while k < n
            invariant
                *self == s1,
                s1.wf(),
                dst < s1.archetypes@.len(),
                n == s1.archetypes@[dst as int].components@.len(),
                elems(s1.archetypes@[dst as int].components@) == elems(src_ids@).difference(elems(ids@)),
                src_ids@ == old(self).archetype_ids(e),
                src_ids@.no_duplicates(),
                src_cells@.len() == src_ids@.len(),
                forall|j: int| 0 <= j < src_ids@.len() ==> #[trigger] m[src_ids@[j]] == src_cells@[j],
                forall|c: usize| #[trigger] m.contains_key(c) <==> src_ids@.contains(c),
                target == m.remove_keys(elems(ids@)),
                k <= n,
                cells@.len() == k,
                forall|j: int| 0 <= j < k ==> #[trigger] cells@[j] == target[s1.archetypes@[dst as int].components@[j]],
            decreases n - k,
        {
            let c = self.archetypes[dst].components[k];
            proof {
                assert(s1.archetypes@[dst as int].components@.contains(c));
                assert(elems(s1.archetypes@[dst as int].components@).contains(c));
            }
            let i2 = position(&src_ids, c).unwrap();
            cells.push(src_cells[i2]);
            k = k + 1;
        }
        self.relocate(e, dst, &cells);
        proof {
            let o = old(self);
            assert(o.all_unchanged(&s1));
            lemma_all_unchanged_others(*o, s1, e);
            lemma_frame_trans(*o, s1, *self, e);
            assert(self.stored_ids(e) =~= target.dom());
            assert forall|c: usize| #[trigger] self.stored_ids(e).contains(c) implies self.cells_of(e)[c]
                == target[c] by {
                lemma_index_of_contains(s1.archetypes@[dst as int].components@, c);
            }
            assert(self.cells_of(e) =~= target);
            let l = o.location_of(e);
            assert(o.slot_ok(e.index as int));
            assert(s1.location_of(e) == l);
            assert(s1.archetypes@[l.archetype as int] == o.archetypes@[l.archetype as int]);
            if dst < o.archetypes@.len() {
                assert(s1.archetypes@[dst as int] == o.archetypes@[dst as int]);
            } else {
                assert(o.entities_or_empty(dst as int) =~= Seq::<Entity>::empty());
            }
            if l.archetype != dst {
                let ents = o.archetype_entities(l.archetype as int);
                assert forall|e2: Entity| o.contains(e2) && e2 != e && e2 != ents.last()
                    implies #[trigger] self.location_of(e2) == o.location_of(e2) by {
                    assert(s1.contains(e2));
                }
                assert forall|a2: int| 0 <= a2 < o.archetype_count() && a2 != l.archetype && a2 != dst
                    implies #[trigger] self.archetype_entities(a2) == o.archetype_entities(a2) by {
                    assert(s1.archetypes@[a2] == o.archetypes@[a2]);
                }
                assert(o.taken_out(&*self, e));
                assert(self.location_of(e).row == o.entities_or_empty(dst as int).len());
                assert(self.archetype_entities(dst as int) == o.entities_or_empty(dst as int).push(e));
            } else {
                assert forall|a2: int| 0 <= a2 < o.archetype_count()
                    implies #[trigger] self.archetype_entities(a2) == o.archetype_entities(a2) by {
                    assert(s1.archetypes@[a2] == o.archetypes@[a2]);
                }
                assert(self.meta == s1.meta);
                assert forall|e2: Entity| o.contains(e2) implies #[trigger] self.location_of(e2) == o.location_of(e2) by {
                    assert(s1.contains(e2));
                }
                assert(self.location_of(e) == o.location_of(e));
            }
            assert(self.location_of(e).archetype == dst);
            assert(o.moved_to(&*self, e));
            assert forall|i2: u32| #[trigger] self.slot_generation(i2) ==  o.slot_generation(i2) by {
                if i2 < o.meta@.len() {
                    assert(self.meta@[i2 as int].generation == s1.meta@[i2 as int].generation);
                }
            }
        }
        Ok(true)
    }

    /// The stored cell of component `c` of entity `e`, if `e` lives and has `c`.
    pub fn get_cell(&self, e: Entity, c: usize) -> (r: Option<Cell>)
        requires
            self.wf(),
        ensures
            r is Some <==> self.contains(e) && self.components_of(e).contains(c),
            r matches Some(cell) ==> cell == self.cells_of(e)[c],
    {
        if !self.is_alive(e) {
            return None;
        }
        let loc = self.meta[e.index as usize].location.unwrap();
        proof {
            assert(self.slot_ok(e.index as int));
        }
        let arch = &self.archetypes[loc.archetype];
        match position(&arch.components, c) {
            Some(k) => Some(arch.columns[k][loc.row]),
            None => None,
        }
    }

    /// The value of component `c` of entity `e`, if `e` lives and has `c`.
    pub fn get(&self, e: Entity, c: usize) -> (r: Option<u64>)
        requires
            self.wf(),
        ensures
            r is Some <==> self.contains(e) && self.components_of(e).contains(c),
            r matches Some(v) ==> v == self.cells_of(e)[c].value,
    {
        match self.get_cell(e, c) {
            Some(cell) => Some(cell.value),
            None => None,
        }
    }

    /// Whether entity `e` lives and has component `c`.
    pub fn has(&self, e: Entity, c: usize) -> (r: bool)
        requires
            self.wf(),
        ensures
            r == (self.contains(e) && self.components_of(e).contains(c)),
    {
        self.get_cell(e, c).is_some()
    }

    /// Where entity `e` is stored, if it lives.
    pub fn location(&self, e: Entity) -> (r: Option<EntityLocation>)
        requires
            self.wf(),
        ensures
            r is Some <==> self.contains(e),
            r matches Some(l) ==> l == self.location_of(e),
    {
        if self.is_alive(e) {
            self.meta[e.index as usize].location
        } else {
            None
        }
    }

    /// Writes `value` into component `c` of entity `e` and marks it changed at
    /// the current tick. Gives `false`, changing nothing, unless `e` lives and has `c`.
    pub fn set(&mut self, e: Entity, c: usize, value: u64) -> (r: bool)
        requires
            old(self).wf(),
        ensures
            final(self).wf(),
            r == (old(self).contains(e) && old(self).components_of(e).contains(c)),
            !r ==> *final(self) == *old(self),
            r ==> final(self).contains(e) && final(self).cells_of(e) == old(self).cells_of(e).insert(
                c,
                Cell { value, added: old(self).cells_of(e)[c].added, changed: old(self).tick() },
            ),
            r ==> final(self).location_of(e) == old(self).location_of(e),
            old(self).others_unchanged(&*final(self), e),
            final(self).tick() == old(self).tick(),
            final(self).registry() == old(self).registry(),
            final(self).slot_count() == old(self).slot_count(),
            forall|i: u32| #[trigger] final(self).slot_generation(i) == old(self).slot_generation(i),
    {
        if !self.is_alive(e) {
            return false;
        }
        let loc = self.meta[e.index as usize].location.unwrap();
        proof {
            assert(old(self).slot_ok(e.index as int));
        }
        let k = match position(&self.archetypes[loc.archetype].components, c) {
            Some(k) => k,
            None => {
                return false;
            },
        };
        let mut cells = self.archetypes[loc.archetype].row_cells(loc.row);
        let old_cell = cells[k];
        cells.set(k, Cell { value, added: old_cell.added, changed: self.change_tick });
        self.overwrite(e, &cells);
        proof {
            let o = old(self);
            let target = o.cells_of(e).insert(c, Cell { value, added: o.cells_of(e)[c].added, changed: o.change_tick });
            assert(self.stored_ids(e) =~= target.dom());
            assert forall|c2: usize| #[trigger] self.stored_ids(e).contains(c2) implies self.cells_of(e)[c2]
                == target[c2] by {
                lemma_index_of_contains(o.archetype_ids(e), c2);
            }
            assert(self.cells_of(e) =~= target);
        }
        true
    }

    /// The current change tick.
    pub fn change_tick(&self) -> (r: Tick)
        ensures
            r.tick == self.tick(),
    {
        Tick { tick: self.change_tick }
    }

    /// Moves the change tick one step on, wrapping, and gives the new tick.
    pub fn increment_change_tick(&mut self) -> (r: Tick)
        requires
            old(self).wf(),
        ensures
            final(self).wf(),
            final(self).tick() == advance(old(self).tick(), 1),
            r.tick == final(self).tick(),
            old(self).all_unchanged(&*final(self)),
            final(self).registry() == old(self).registry(),
            final(self).slot_count() == old(self).slot_count(),
            forall|i: u32| #[trigger] final(self).slot_generation(i) == old(self).slot_generation(i),
            final(self).archetype_count() == old(self).archetype_count(),
            forall|a: int| #[trigger] final(self).archetype_components(a) == old(self).archetype_components(a),
            forall|a: int| #[trigger] final(self).archetype_entities(a) == old(self).archetype_entities(a),
            forall|a: int, k: int| #[trigger] final(self).column_len(a, k) == old(self).column_len(a, k),
            forall|e2: Entity| old(self).contains(e2) ==> #[trigger] final(self).location_of(e2) == old(self).location_of(e2),
    {
        self.change_tick = self.change_tick.wrapping_add(1);
        proof {
            let o = old(self);
            assert forall|a2: int, r2: int| 0 <= a2 < self.archetypes@.len() && 0 <= r2 < self.archetypes@[a2].entities@.len()
                implies #[trigger] self.row_ok(a2, r2) by {
                assert(o.row_ok(a2, r2));
            }
            assert forall|i: int| 0 <= i < self.meta@.len() implies #[trigger] self.slot_ok(i) by {
                assert(o.slot_ok(i));
            }
            assert forall|e2: Entity| o.contains(e2) implies #[trigger] self.cells_of(e2) == o.cells_of(e2) by {
                assert(self.cells_of(e2) =~= o.cells_of(e2));
            }
        }
        Tick { tick: self.change_tick }
    }

    /// The id of the component type with key `type_key`, registered on first use.
    pub fn register_component(&mut self, type_key: u64, size: usize, align: usize) -> (r: usize)
        requires
            old(self).wf(),
        ensures
            final(self).wf(),
            r < final(self).registry().infos().len(),
            final(self).registry().infos()[r as int].type_key == type_key,
            old(self).registry().has_key(type_key) ==> final(self).registry().infos() == old(self).registry().infos(),
            forall|i: int| 0 <= i < old(self).registry().infos().len()
                && (#[trigger] old(self).registry().infos()[i]).type_key == type_key ==> r == i,
            !old(self).registry().has_key(type_key) ==> r == old(self).registry().infos().len()
                && final(self).registry().infos() == old(self).registry().infos().push(
                    ComponentInfo { id: r, type_key, size, align },
                ),
            old(self).all_unchanged(&*final(self)),
            final(self).tick() == old(self).tick(),
            final(self).slot_count() == old(self).slot_count(),
            forall|i: u32| #[trigger] final(self).slot_generation(i) == old(self).slot_generation(i),
            final(self).archetype_count() == old(self).archetype_count(),
            forall|a: int| #[trigger] final(self).archetype_components(a) == old(self).archetype_components(a),
            forall|a: int| #[trigger] final(self).archetype_entities(a) == old(self).archetype_entities(a),
            forall|a: int, k: int| #[trigger] final(self).column_len(a, k) == old(self).column_len(a, k),
            forall|e2: Entity| old(self).contains(e2) ==> #[trigger] final(self).location_of(e2) == old(self).location_of(e2),
    {
        let r = self.registry.register(type_key, size, align);
        proof {
            let o = old(self);
            assert forall|a2: int, r2: int| 0 <= a2 < self.archetypes@.len() && 0 <= r2 < self.archetypes@[a2].entities@.len()
                implies #[trigger] self.row_ok(a2, r2) by {
                assert(o.row_ok(a2, r2));
            }
            assert forall|i: int| 0 <= i < self.meta@.len() implies #[trigger] self.slot_ok(i) by {
                assert(o.slot_ok(i));
            }
            assert forall|e2: Entity| o.contains(e2) implies #[trigger] self.cells_of(e2) == o.cells_of(e2) by {
                assert(self.cells_of(e2) =~= o.cells_of(e2));
            }
            if o.registry.has_key(type_key) {
                assert(self.registry().infos() == o.registry().infos());
            }
        }
        r
    }

    /// The component registry.
    pub fn components(&self) -> (r: &ComponentRegistry)
        ensures
            *r == self.registry(),
    {
        &self.registry
    }

    /// Whether a query with `filter`, and with the change test `check` when
    /// there is one, yields entity `x`: `x` lives, its components pass the
    /// filter, and, under a test `(c, added)`, it has `c` and the tick of `c`
    /// that the test reads is newer than `last_run`, both seen from `this_run`.
    pub closed spec fn selects(
        &self,
        x: Entity,
        filter: &QueryFilter,
        check: Option<(usize, bool)>,
        last_run: Tick,
        this_run: Tick,
    ) -> bool {
        &&& self.contains(x)
        &&& filter.matches_set(self.stored_ids(x))
        &&& match check {
            None => true,
            Some(t) => self.stored_ids(x).contains(t.0)
                && age(last_run.tick, this_run.tick) > age(cell_tick(self.cells_of(x)[t.0], t.1), this_run.tick),
        }
    }

    fn collect(
        &self,
        filter: &QueryFilter,
        check: Option<(usize, bool)>,
        last_run: Tick,
        this_run: Tick,
    ) -> (r: Vec<Entity>)
        requires
            self.wf(),
        ensures
            forall|x: Entity| #[trigger] r@.contains(x) <==> self.selects(x, filter, check, last_run, this_run),
            r@.no_duplicates(),
    {
        let mut out: Vec<Entity> = Vec::new();
        let mut a: usize = 0;
        while a < self.archetypes.len()
            invariant
                self.wf(),
                a <= self.archetypes@.len(),
                out@.no_duplicates(),
                forall|x: Entity| #[trigger] out@.contains(x) <==> (self.selects(x, filter, check, last_run, this_run)
                    && self.location_of(x).archetype < a),
            decreases self.archetypes@.len() - a,
        {
            let arch = &self.archetypes[a];
            proof {
                assert(self.archetypes@[a as int].wf());
            }
            let mut col: usize = 0;
            let mut ok = filter.matches(&arch.components);
            if ok {
                match check {
                    None => {},
                    Some(t) => match position(&arch.components, t.0) {
                        Some(k) => {
                            col = k;
                        },
                        None => {
                            ok = false;
                        },
                    },
                }
            }
            if ok {
                let mut r: usize = 0;
                while r < arch.entities.len()
                    invariant
                        self.wf(),
                        a < self.archetypes@.len(),
                        *arch == self.archetypes@[a as int],
                        arch.wf(),
                        filter.matches_set(elems(arch.components@)),
                        check matches Some(t) ==> col < arch.components@.len() && arch.components@[col as int] == t.0
                            && col == index_of(arch.components@, t.0),
                        r <= arch.entities@.len(),
                        out@.no_duplicates(),
                        forall|x: Entity| #[trigger] out@.contains(x) <==> (self.selects(x, filter, check, last_run, this_run)
                            && (self.location_of(x).archetype < a
                                || (self.location_of(x).archetype == a && self.location_of(x).row < r))),
                    decreases arch.entities@.len() - r,
                {
                    let x = arch.entities[r];
                    proof {
                        assert(self.row_ok(a as int, r as int));
                    }
                    let pass = match check {
                        None => true,
                        Some(t) => {
                            let cell = arch.columns[col][r];
                            let tk = if t.1 { cell.added } else { cell.changed };
                            Tick { tick: tk }.is_newer_than(last_run, this_run)
                        },
                    };
                    proof {
                        assert(self.contains(x));
                        assert(self.location_of(x) == EntityLocation { archetype: a, row: r });
                        if let Some(t) = check {
                            assert(elems(arch.components@).contains(t.0));
                        }
                        assert(pass == self.selects(x, filter, check, last_run, this_run));
                        assert forall|y: Entity| self.contains(y) && self.location_of(y).archetype == a
                            && self.location_of(y).row == r implies y == x by {
                            assert(self.slot_ok(y.index as int));
                        }
                    }
                    if pass {
                        proof {
                            lemma_push_contains(out@, x);
                            assert(!out@.contains(x));
                            assert forall|i: int, j: int| 0 <= i < out@.push(x).len() && 0 <= j < out@.push(x).len()
                                && i != j implies out@.push(x)[i] != out@.push(x)[j] by {
                                if i < out@.len() && j < out@.len() {
                                } else if i < out@.len() {
                                    assert(out@.contains(out@[i]));
                                } else if j < out@.len() {
                                    assert(out@.contains(out@[j]));
                                }
                            }
                        }
                        out.push(x);
                    }
                    r = r + 1;
                }
                proof {
                    assert forall|x: Entity| self.contains(x) && self.location_of(x).archetype == a
                        implies self.location_of(x).row < r by {
                        assert(self.slot_ok(x.index as int));
                    }
                }
            } else {
                proof {
                    assert forall|x: Entity| self.contains(x) && self.location_of(x).archetype == a
                        implies !self.selects(x, filter, check, last_run, this_run) by {
                        if let Some(t) = check {
                            if filter.matches_set(self.stored_ids(x)) {
                                assert(!arch.components@.contains(t.0));
                            }
                        }
                    }
                }
            }
            a = a + 1;
        }
        proof {
            assert forall|x: Entity| self.selects(x, filter, check, last_run, this_run)
                implies self.location_of(x).archetype < a by {
                assert(self.slot_ok(x.index as int));
            }
        }
        out
    }

    /// The living entities whose components pass `filter`.
    pub fn query(&self, filter: &QueryFilter) -> (r: Vec<Entity>)
        requires
            self.wf(),
        ensures
            forall|x: Entity| #[trigger] r@.contains(x) <==> (self.contains(x)
                && filter.matches_set(self.components_of(x))),
            r@.no_duplicates(),
    {
        let t = Tick { tick: 0 };
        let r = self.collect(filter, None, t, t);
        proof {
            assert forall|x: Entity| #[trigger] r@.contains(x) <==> (self.contains(x)
                && filter.matches_set(self.components_of(x))) by {
                assert(r@.contains(x) == self.selects(x, filter, None, t, t));
            }
        }
        r
    }

    /// The living entities whose components pass `filter`, that have component
    /// `c`, and whose `c` was changed after `last_run`, both seen from `this_run`.
    pub fn query_changed(&self, filter: &QueryFilter, c: usize, last_run: Tick, this_run: Tick) -> (r: Vec<Entity>)
        requires
            self.wf(),
        ensures
            forall|x: Entity| #[trigger] r@.contains(x) <==> (self.contains(x)
                && filter.matches_set(self.components_of(x))
                && self.components_of(x).contains(c)
                && age(last_run.tick, this_run.tick) > age(self.cells_of(x)[c].changed, this_run.tick)),
            r@.no_duplicates(),
    {
        let r = self.collect(filter, Some((c, false)), last_run, this_run);
        proof {
            assert forall|x: Entity| #[trigger] r@.contains(x) <==> (self.contains(x)
                && filter.matches_set(self.components_of(x))
                && self.components_of(x).contains(c)
                && age(last_run.tick, this_run.tick) > age(self.cells_of(x)[c].changed, this_run.tick)) by {
                assert(r@.contains(x) == self.selects(x, filter, Some((c, false)), last_run, this_run));
            }
        }
        r
    }

    /// The living entities whose components pass `filter`, that have component
    /// `c`, and whose `c` was added after `last_run`, both seen from `this_run`.
    pub fn query_added(&self, filter: &QueryFilter, c: usize, last_run: Tick, this_run: Tick) -> (r: Vec<Entity>)
        requires
            self.wf(),
        ensures
            forall|x: Entity| #[trigger] r@.contains(x) <==> (self.contains(x)
                && filter.matches_set(self.components_of(x))
                && self.components_of(x).contains(c)
                && age(last_run.tick, this_run.tick) > age(self.cells_of(x)[c].added, this_run.tick)),
            r@.no_duplicates(),
    {
        let r = self.collect(filter, Some((c, true)), last_run, this_run);
        proof {
            assert forall|x: Entity| #[trigger] r@.contains(x) <==> (self.contains(x)
                && filter.matches_set(self.components_of(x))
                && self.components_of(x).contains(c)
                && age(last_run.tick, this_run.tick) > age(self.cells_of(x)[c].added, this_run.tick)) by {
                assert(r@.contains(x) == self.selects(x, filter, Some((c, true)), last_run, this_run));
            }
        }
        r
    }

    /// Whether column `k` of archetype `a` is touched by a query with `filter`
    /// that uses the component ids `ids`.
    pub closed spec fn column_used(&self, filter: &QueryFilter, ids: Set<usize>, a: int, k: int) -> bool {
        &&& 0 <= a < self.archetypes@.len()
        &&& 0 <= k < self.archetypes@[a].components@.len()
        &&& filter.matches_set(elems(self.archetypes@[a].components@))
        &&& ids.contains(self.archetypes@[a].components@[k])
    }

    /// The access id of column `k` of archetype `a`.
    pub closed spec fn column_id(&self, a: int, k: int) -> usize {
        self.archetypes@[a].column_ids@[k]
    }

    /// The access ids of the columns touched by a query with `filter` that
    /// uses the component ids `ids`, in archetypes before `a_lim`, and in
    /// archetype `a_lim` before column `k_lim`.
    pub closed spec fn used_before(&self, filter: &QueryFilter, ids: Set<usize>, a_lim: int, k_lim: int) -> Set<usize> {
        Set::new(|id: usize| exists|a: int, k: int| #[trigger] self.column_used(filter, ids, a, k)
            && (a < a_lim || (a == a_lim && k < k_lim)) && self.column_id(a, k) == id)
    }

    /// The access ids of all columns touched by a query with `filter` that
    /// uses the component ids `ids`.
    pub closed spec fn used_columns(&self, filter: &QueryFilter, ids: Set<usize>) -> Set<usize> {
        Set::new(|id: usize| exists|a: int, k: int| #[trigger] self.column_used(filter, ids, a, k)
            && self.column_id(a, k) == id)
    }

    proof fn lemma_used_step(&self, filter: &QueryFilter, ids: Set<usize>, a: int, k: int)
        requires
            0 <= a < self.archetypes@.len(),
            0 <= k < self.archetypes@[a].components@.len(),
        ensures
            self.column_used(filter, ids, a, k) ==> self.used_before(filter, ids, a, k + 1)
                == self.used_before(filter, ids, a, k).insert(self.column_id(a, k)),
            !self.column_used(filter, ids, a, k) ==> self.used_before(filter, ids, a, k + 1)
                == self.used_before(filter, ids, a, k),
    {
        assert forall|id: usize| #[trigger] self.used_before(filter, ids, a, k + 1).contains(id)
            <==> self.used_before(filter, ids, a, k).contains(id)
                || (self.column_used(filter, ids, a, k) && id == self.column_id(a, k)) by {
            if self.used_before(filter, ids, a, k + 1).contains(id) {
                let (a2, k2) = choose|a2: int, k2: int| #[trigger] self.column_used(filter, ids, a2, k2)
                    && (a2 < a || (a2 == a && k2 < k + 1)) && self.column_id(a2, k2) == id;
                if !(a2 == a && k2 == k) {
                    assert(self.column_used(filter, ids, a2, k2) && (a2 < a || (a2 == a && k2 < k)));
                }
            }
            if self.used_before(filter, ids, a, k).contains(id) {
                let (a2, k2) = choose|a2: int, k2: int| #[trigger] self.column_used(filter, ids, a2, k2)
                    && (a2 < a || (a2 == a && k2 < k)) && self.column_id(a2, k2) == id;
                assert(self.column_used(filter, ids, a2, k2));
            }
            if self.column_used(filter, ids, a, k) && id == self.column_id(a, k) {
                assert(self.column_used(filter, ids, a, k));
            }
        }
        assert(self.used_before(filter, ids, a, k + 1) =~= if self.column_used(filter, ids, a, k) {
            self.used_before(filter, ids, a, k).insert(self.column_id(a, k))
        } else {
            self.used_before(filter, ids, a, k)
        });
    }

    proof fn lemma_used_next_archetype(&self, filter: &QueryFilter, ids: Set<usize>, a: int, k: int)
        requires
            0 <= a < self.archetypes@.len(),
            k == self.archetypes@[a].components@.len() || !filter.matches_set(elems(self.archetypes@[a].components@)),
        ensures
            self.used_before(filter, ids, a + 1, 0) == self.used_before(filter, ids, a, k),
    {
        assert forall|id: usize| #[trigger] self.used_before(filter, ids, a + 1, 0).contains(id)
            <==> self.used_before(filter, ids, a, k).contains(id) by {
            if self.used_before(filter, ids, a + 1, 0).contains(id) {
                let (a2, k2) = choose|a2: int, k2: int| #[trigger] self.column_used(filter, ids, a2, k2)
                    && (a2 < a + 1 || (a2 == a + 1 && k2 < 0)) && self.column_id(a2, k2) == id;
                assert(self.column_used(filter, ids, a2, k2));
            }
            if self.used_before(filter, ids, a, k).contains(id) {
                let (a2, k2) = choose|a2: int, k2: int| #[trigger] self.column_used(filter, ids, a2, k2)
                    && (a2 < a || (a2 == a && k2 < k)) && self.column_id(a2, k2) == id;
                assert(self.column_used(filter, ids, a2, k2));
            }
        }
        assert(self.used_before(filter, ids, a + 1, 0) =~= self.used_before(filter, ids, a, k));
    }

    /// The access of a query with `filter` that reads the components `reads`
    /// and writes the components `writes`: by component type, and by each
    /// column of each archetype that the filter admits. It uses no resource.
    pub fn query_access(&self, filter: &QueryFilter, reads: &Vec<usize>, writes: &Vec<usize>) -> (r: Access)
        requires
            self.wf(),
        ensures
            r.wf(),
            r.components.rw_set() == elems(reads@).union(elems(writes@)),
            r.components.write_set() == elems(writes@),
            r.resources.rw_set().is_empty(),
            r.resources.write_set().is_empty(),
            r.archetype_components.rw_set() == self.used_columns(filter, elems(reads@).union(elems(writes@))),
            r.archetype_components.write_set() == self.used_columns(filter, elems(writes@)),
    {
        let mut acc = Access::new();
        let mut i: usize = 0;
        while i < reads.len()
            invariant
                acc.wf(),
                i <= reads@.len(),
                acc.components.rw_set() == elems(reads@.subrange(0, i as int)),
                acc.components.write_set().is_empty(),
                acc.resources.rw_set().is_empty(),
                acc.resources.write_set().is_empty(),
                acc.archetype_components.rw_set().is_empty(),
                acc.archetype_components.write_set().is_empty(),
            decreases reads@.len() - i,
        {
            proof {
                lemma_elems_prefix(reads@, i as int);
            }
            acc.components.add_read(reads[i]);
            i = i + 1;
        }
        proof {
            assert(reads@.subrange(0, i as int) =~= reads@);
            assert(elems(writes@.subrange(0, 0)) =~= Set::<usize>::empty());
            assert(acc.components.rw_set() =~= elems(reads@).union(elems(writes@.subrange(0, 0))));
            assert(acc.components.write_set() =~= elems(writes@.subrange(0, 0)));
        }
        let mut j: usize = 0;
        while j < writes.len()
            invariant
                acc.wf(),
                j <= writes@.len(),
                acc.components.rw_set() == elems(reads@).union(elems(writes@.subrange(0, j as int))),
                acc.components.write_set() == elems(writes@.subrange(0, j as int)),
                acc.resources.rw_set().is_empty(),
                acc.resources.write_set().is_empty(),
                acc.archetype_components.rw_set().is_empty(),
                acc.archetype_components.write_set().is_empty(),
            decreases writes@.len() - j,
        {
            proof {
                lemma_elems_prefix(writes@, j as int);
            }
            acc.components.add_write(writes[j]);
            j = j + 1;
            proof {
                assert(acc.components.rw_set() =~= elems(reads@).union(elems(writes@.subrange(0, j as int))));
            }
        }
        proof {
            assert(reads@.subrange(0, reads@.len() as int) =~= reads@);
            assert(writes@.subrange(0, writes@.len() as int) =~= writes@);
            assert(elems(writes@.subrange(0, 0)) =~= Set::<usize>::empty());
            assert(acc.components.rw_set() =~= elems(reads@).union(elems(writes@)));
        }
        let ghost rw = elems(reads@).union(elems(writes@));
        let ghost wr = elems(writes@);
        proof {
            assert(self.used_before(filter, rw, 0, 0) =~= Set::<usize>::empty());
            assert(self.used_before(filter, wr, 0, 0) =~= Set::<usize>::empty());
        }
        let mut a: usize = 0;
        while a < self.archetypes.len()
            invariant
                self.wf(),
                acc.wf(),
                a <= self.archetypes@.len(),
                rw == elems(reads@).union(elems(writes@)),
                wr == elems(writes@),
                acc.components.rw_set() == rw,
                acc.components.write_set() == wr,
                acc.resources.rw_set().is_empty(),
                acc.resources.write_set().is_empty(),
                acc.archetype_components.rw_set() == self.used_before(filter, rw, a as int, 0),
                acc.archetype_components.write_set() == self.used_before(filter, wr, a as int, 0),
            decreases self.archetypes@.len() - a,
        {
            let arch = &self.archetypes[a];
            proof {
                assert(self.archetypes@[a as int].wf());
            }
            if filter.matches(&arch.components) {
                let mut k: usize = 0;
                while k < arch.components.len()
                    invariant
                        self.wf(),
                        acc.wf(),
                        a < self.archetypes@.len(),
                        *arch == self.archetypes@[a as int],
                        arch.wf(),
                        filter.matches_set(elems(arch.components@)),
                        k <= arch.components@.len(),
                        rw == elems(reads@).union(elems(writes@)),
                        wr == elems(writes@),
                        acc.components.rw_set() == rw,
                        acc.components.write_set() == wr,
                        acc.resources.rw_set().is_empty(),
                        acc.resources.write_set().is_empty(),
                        acc.archetype_components.rw_set() == self.used_before(filter, rw, a as int, k as int),
                        acc.archetype_components.write_set() == self.used_before(filter, wr, a as int, k as int),
                    decreases arch.components@.len() - k,
                {
                    let c = arch.components[k];
                    let id = arch.column_ids[k];
                    proof {
                        self.lemma_used_step(filter, rw, a as int, k as int);
                        self.lemma_used_step(filter, wr, a as int, k as int);
                        assert(id == self.column_id(a as int, k as int));
                    }
                    if vec_contains(writes, c) {
                        acc.archetype_components.add_write(id);
                    } else if vec_contains(reads, c) {
                        acc.archetype_components.add_read(id);
                    } else {
                        assert(!self.column_used(filter, rw, a as int, k as int));
                    }
                    k = k + 1;
                }
                proof {
                    self.lemma_used_next_archetype(filter, rw, a as int, k as int);
                    self.lemma_used_next_archetype(filter, wr, a as int, k as int);
                }
            } else {
                proof {
                    self.lemma_used_next_archetype(filter, rw, a as int, 0);
                    self.lemma_used_next_archetype(filter, wr, a as int, 0);
                }
            }
            a = a + 1;
        }
        proof {
            assert(self.used_before(filter, rw, a as int, 0) =~= self.used_columns(filter, rw));
            assert(self.used_before(filter, wr, a as int, 0) =~= self.used_columns(filter, wr));
        }
        acc
    }

    /// How many archetypes there are.
    pub fn num_archetypes(&self) -> (r: usize)
        ensures
            r == self.archetype_count(),
    {
        self.archetypes.len()
    }

    /// The component ids of archetype `a`, in increasing order, if it exists.
    pub fn archetype_component_ids(&self, a: usize) -> (r: Option<Vec<usize>>)
        requires
            self.wf(),
        ensures
            r is Some <==> a < self.archetype_count(),
            r matches Some(v) ==> v@ == self.archetype_components(a as int),
    {
        if a < self.archetypes.len() {
            Some(copy_ids(&self.archetypes[a].components))
        } else {
            None
        }
    }

    /// The entities of archetype `a`, by row, if it exists.
    pub fn archetype_entity_list(&self, a: usize) -> (r: Option<Vec<Entity>>)
        requires
            self.wf(),
        ensures
            r is Some <==> a < self.archetype_count(),
            r matches Some(v) ==> v@ == self.archetype_entities(a as int),
    {
        if a >= self.archetypes.len() {
            return None;
        }
        let ents = &self.archetypes[a].entities;
        let mut v: Vec<Entity> = Vec::new();
        let mut i: usize = 0;
        while i < ents.len()
            invariant
                i <= ents@.len(),
                v@ == ents@.subrange(0, i as int),
            decreases ents@.len() - i,
        {
            v.push(ents[i]);
            i = i + 1;
            assert(v@ =~= ents@.subrange(0, i as int));
        }
        assert(v@ =~= ents@);
        Some(v)
    }

    /// The living entities whose components pass `filter` and that have
    /// component `c`, each once, with the value of their `c`.
    pub fn query_read(&self, filter: &QueryFilter, c: usize) -> (r: Vec<(Entity, u64)>)
        requires
            self.wf(),
        ensures
            forall|x: Entity, v: u64| #[trigger] r@.contains((x, v)) <==> (self.contains(x)
                && filter.matches_set(self.components_of(x)) && self.components_of(x).contains(c)
                && v == self.cells_of(x)[c].value),
            forall|i: int, j: int| 0 <= i < j < r@.len() ==> r@[i].0 != r@[j].0,
    {
        let es = self.query(filter);
        let mut out: Vec<(Entity, u64)> = Vec::new();
        let mut i: usize = 0;
        while i < es.len()
            invariant
                self.wf(),
                i <= es@.len(),
                es@.no_duplicates(),
                forall|x: Entity| #[trigger] es@.contains(x) <==> (self.contains(x)
                    && filter.matches_set(self.components_of(x))),
                forall|x: Entity, v: u64| #[trigger] out@.contains((x, v)) <==> (es@.subrange(0, i as int).contains(x)
                    && self.components_of(x).contains(c) && v == self.cells_of(x)[c].value),
                forall|p: int| 0 <= p < out@.len() ==> es@.subrange(0, i as int).contains(#[trigger] out@[p].0),
                forall|p: int, q: int| 0 <= p < q < out@.len() ==> out@[p].0 != out@[q].0,
            decreases es@.len() - i,
        {
            let x = es[i];
            let ghost prev = es@.subrange(0, i as int);
            let ghost next = es@.subrange(0, i + 1);
            proof {
                assert(next =~= prev.push(x));
                lemma_push_contains(prev, x);
                assert(!prev.contains(x)) by {
                    if prev.contains(x) {
                        let j = choose|j: int| 0 <= j < prev.len() && prev[j] == x;
                        assert(es@[j] == es@[i as int]);
                    }
                }
            }
            let ghost out_old = out@;
            assert(es@.contains(x)) by {
                assert(es@[i as int] == x);
            }
            assert(self.contains(x));
            let got = self.get(x, c);
            match got {
                Some(v) => {
                    proof {
                        lemma_push_contains(out@, (x, v));
                        assert forall|p: int| 0 <= p < out_old.len() implies out_old[p].0 != x by {
                            assert(prev.contains(out_old[p].0));
                        }
                    }
                    out.push((x, v));
                },
                None => {},
            }
            proof {
                assert forall|y: Entity, v: u64| #[trigger] out@.contains((y, v)) <==> (next.contains(y)
                    && self.components_of(y).contains(c) && v == self.cells_of(y)[c].value) by {
                    assert(next.contains(y) <==> prev.contains(y) || y == x);
                    assert(out_old.contains((y, v)) <==> (prev.contains(y)
                        && self.components_of(y).contains(c) && v == self.cells_of(y)[c].value));
                    if let Some(v0) = got {
                        assert(out@ == out_old.push((x, v0)));
                        assert(out@.contains((y, v)) <==> out_old.contains((y, v)) || (y, v) == (x, v0));
                    } else {
                        assert(out@ == out_old);
                    }
                }
                assert forall|p: int| 0 <= p < out@.len() implies next.contains(#[trigger] out@[p].0) by {
                    if p < out_old.len() {
                        assert(prev.contains(out_old[p].0));
                    } else {
                        assert(out@[p].0 == x);
                        assert(next[i as int] == x);
                    }
                }
            }
            i = i + 1;
        }
        proof {
            assert(es@.subrange(0, i as int) =~= es@);
        }
        out
    }

    /// Whether `e` names a living entity.
    pub fn is_alive(&self, e: Entity) -> (r: bool)
        ensures
            r == self.contains(e),
    {
        (e.index as usize) < self.meta.len() && self.meta[e.index as usize].generation == e.generation
            && self.meta[e.index as usize].location.is_some()
    }
}

} // verus!
