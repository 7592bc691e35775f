//! Archetypes: the entities that share one exact set of components, stored as
//! one column per component and one row per entity.
use vstd::prelude::*;
use crate::entity::Entity;

verus! {

/// One stored component value with the ticks at which it was added and last changed.
#[derive(Clone, Copy, Debug, PartialEq, Eq, Structural)]
pub struct Cell {
    pub value: u64,
    pub added: u32,
    pub changed: u32,
}

#[derive(Debug)]
pub struct Archetype {
    /// The component ids of this archetype, each once.
    pub components: Vec<usize>,
    /// The entity of each row.
    pub entities: Vec<Entity>,
    /// One column per component id, in the order of `components`.
    pub columns: Vec<Vec<Cell>>,
    /// The id of each column as a unit of access (a component within this
    /// archetype), in the order of `components`.
    pub column_ids: Vec<usize>,
}

impl Archetype {
    /// All columns are as long as the entity list, one per component.
    pub open spec fn wf(&self) -> bool {
        &&& self.components@.no_duplicates()
        &&& self.columns@.len() == self.components@.len()
        &&& self.column_ids@.len() == self.components@.len()
        &&& forall|k: int| 0 <= k < self.columns@.len() ==> #[trigger] self.columns@[k]@.len() == self.entities@.len()
    }

    pub open spec fn cell(&self, k: int, row: int) -> Cell {
        self.columns@[k]@[row]
    }

    pub open spec fn rows(&self) -> nat {
        self.entities@.len()
    }

    /// An empty archetype for the given component ids, whose columns take the
    /// given access ids.
    pub fn new(components: Vec<usize>, column_ids: Vec<usize>) -> (r: Archetype)
        requires
            components@.no_duplicates(),
            column_ids@.len() == components@.len(),
        ensures
            r.wf(),
            r.components@ == components@,
            r.column_ids@ == column_ids@,
            r.entities@.len() == 0,
    {
        let mut columns: Vec<Vec<Cell>> = Vec::new();
        let mut k: usize = 0;
        while k < components.len()
            invariant
                k <= components@.len(),
                columns@.len() == k,
                forall|j: int| 0 <= j < k ==> #[trigger] columns@[j]@.len() == 0,
            decreases components@.len() - k,
        {
            columns.push(Vec::new());
            k = k + 1;
        }
        Archetype { components, entities: Vec::new(), columns, column_ids }
    }

    pub fn len(&self) -> (r: usize)
        ensures
            r == self.entities@.len(),
    {
        self.entities.len()
    }

    /// Appends a row for `e` holding `cells`, one per column.
    pub fn push_row(&mut self, e: Entity, cells: &Vec<Cell>)
        requires
            old(self).wf(),
            cells@.len() == old(self).components@.len(),
        ensures
            final(self).wf(),
            final(self).components@ == old(self).components@,
            final(self).column_ids@ == old(self).column_ids@,
            final(self).entities@ == old(self).entities@.push(e),
            forall|k: int, r: int| 0 <= k < old(self).columns@.len() && 0 <= r < old(self).rows()
                ==> #[trigger] final(self).cell(k, r) == old(self).cell(k, r),
            forall|k: int| 0 <= k < old(self).columns@.len()
                ==> #[trigger] final(self).cell(k, old(self).rows() as int) == cells@[k],
    {
        let n = self.columns.len();
        let mut k: usize = 0;
        while k < n
            invariant
                k <= n,
                n == self.columns@.len(),
                self.columns@.len() == old(self).columns@.len(),
                self.components@ == old(self).components@,
                self.column_ids@ == old(self).column_ids@,
                self.entities@ == old(self).entities@,
                cells@.len() == n,
                forall|j: int| 0 <= j < k ==> #[trigger] self.columns@[j]@ == old(self).columns@[j]@.push(cells@[j]),
                forall|j: int| k <= j < n ==> #[trigger] self.columns@[j]@ == old(self).columns@[j]@,
            decreases n - k,
        {
            self.columns[k].push(cells[k]);
            k = k + 1;
        }
        self.entities.push(e);
    }

    /// Removes row `row` by moving the last row into its place.
    pub fn swap_remove_row(&mut self, row: usize)
        requires
            old(self).wf(),
            row < old(self).rows(),
        ensures
            final(self).wf(),
            final(self).components@ == old(self).components@,
            final(self).column_ids@ == old(self).column_ids@,
            final(self).entities@ == old(self).entities@.update(row as int, old(self).entities@.last()).drop_last(),
            forall|k: int| 0 <= k < old(self).columns@.len() ==> #[trigger] final(self).columns@[k]@
                == old(self).columns@[k]@.update(row as int, old(self).columns@[k]@.last()).drop_last(),
    {
        let n = self.columns.len();
        let mut k: usize = 0;
        while k < n
            invariant
                k <= n,
                n == self.columns@.len(),
                self.columns@.len() == old(self).columns@.len(),
                self.components@ == old(self).components@,
                self.column_ids@ == old(self).column_ids@,
                self.entities@ == old(self).entities@,
                old(self).wf(),
                row < old(self).rows(),
                forall|j: int| 0 <= j < k ==> #[trigger] self.columns@[j]@
                    == old(self).columns@[j]@.update(row as int, old(self).columns@[j]@.last()).drop_last(),
                forall|j: int| k <= j < n ==> #[trigger] self.columns@[j]@ == old(self).columns@[j]@,
            decreases n - k,
        {
            self.columns[k].swap_remove(row);
            k = k + 1;
        }
        self.entities.swap_remove(row);
    }

    /// Replaces the cells of row `row`, one per column.
    pub fn set_row(&mut self, row: usize, cells: &Vec<Cell>)
        requires
            old(self).wf(),
            row < old(self).rows(),
            cells@.len() == old(self).components@.len(),
        ensures
            final(self).wf(),
            final(self).components@ == old(self).components@,
            final(self).column_ids@ == old(self).column_ids@,
            final(self).entities@ == old(self).entities@,
            forall|k: int| 0 <= k < old(self).columns@.len() ==> #[trigger] final(self).columns@[k]@
                == old(self).columns@[k]@.update(row as int, cells@[k]),
    {
        let n = self.columns.len();
        let mut k: usize = 0;
        while k < n
            invariant
                k <= n,
                n == self.columns@.len(),
                self.columns@.len() == old(self).columns@.len(),
                self.components@ == old(self).components@,
                self.column_ids@ == old(self).column_ids@,
                self.entities@ == old(self).entities@,
                old(self).wf(),
                row < old(self).rows(),
                cells@.len() == n,
                forall|j: int| 0 <= j < k ==> #[trigger] self.columns@[j]@
                    == old(self).columns@[j]@.update(row as int, cells@[j]),
                forall|j: int| k <= j < n ==> #[trigger] self.columns@[j]@ == old(self).columns@[j]@,
            decreases n - k,
        {
            self.columns[k].set(row, cells[k]);
            k = k + 1;
        }
    }

    /// The cells of row `row`, one per column.
    pub fn row_cells(&self, row: usize) -> (r: Vec<Cell>)
        requires
            self.wf(),
            row < self.rows(),
        ensures
            r@.len() == self.components@.len(),
            forall|k: int| 0 <= k < r@.len() ==> #[trigger] r@[k] == self.cell(k, row as int),
    {
        let mut r: Vec<Cell> = Vec::new();
        let mut k: usize = 0;
        while k < self.columns.len()
            invariant
                self.wf(),
                row < self.rows(),
                k <= self.columns@.len(),
                r@.len() == k,
                forall|j: int| 0 <= j < k ==> #[trigger] r@[j] == self.cell(j, row as int),
            decreases self.columns@.len() - k,
        {
            r.push(self.columns[k][row]);
            k = k + 1;
        }
        r
    }
}

} // verus!
