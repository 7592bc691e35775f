//! An archetype-based entity-component store: a component registry, an entity
//! allocator with generation counters, dense archetype tables with swap-remove,
//! query filters, access sets for conflict detection, and wrap-aware change ticks.
use vstd::prelude::*;

pub mod access;
pub mod archetype;
pub mod batching;
pub mod bundle;
pub mod component;
pub mod entity;
pub mod ids;
pub mod query;
pub mod state;
pub mod tick;
pub mod world;

pub use access::{Access, AccessError, AccessSet};
pub use archetype::Cell;
pub use batching::{add_instance, batch_bin, prepare_sorted_item, BatchedInstanceBuffer, BinnedBatch};
pub use bundle::Bundle;
pub use component::{ComponentInfo, ComponentRegistry};
pub use entity::{Entity, EntityLocation};
pub use query::QueryFilter;
pub use state::QueryState;
pub use tick::Tick;
pub use world::{EntityError, World};

verus! {

} // verus!
