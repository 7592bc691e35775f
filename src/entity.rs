//! Entity handles and where an entity's data lives.
use vstd::prelude::*;

verus! {

/// A handle to an entity: a slot index and the generation of that slot when
/// the handle was made. A handle is stale once its slot has been freed.
#[derive(Clone, Copy, Debug, PartialEq, Eq, Structural)]
pub struct Entity {
    pub index: u32,
    pub generation: u32,
}

impl Entity {
    pub fn index(&self) -> (r: u32)
        ensures
            r == self.index,
    {
        self.index
    }

    pub fn generation(&self) -> (r: u32)
        ensures
            r == self.generation,
    {
        self.generation
    }
}

/// The archetype and the row in it that hold an entity's components.
#[derive(Clone, Copy, Debug, PartialEq, Eq, Structural)]
pub struct EntityLocation {
    pub archetype: usize,
    pub row: usize,
}

/// The state of one entity slot: its current generation and, while an entity
/// lives there, its location.
#[derive(Clone, Copy, Debug, PartialEq, Eq, Structural)]
pub struct EntityMeta {
    pub generation: u32,
    pub location: Option<EntityLocation>,
}

} // verus!
