//! The CPU side of a batched instance buffer: per-instance data gathered in
//! order, each item addressed by the index at which it was pushed.
use vstd::prelude::*;
use crate::entity::Entity;

verus! {

/// Instance data of type `BD` waiting to be written out, in push order.
#[derive(Debug)]
pub struct BatchedInstanceBuffer<BD> {
    pub data: Vec<BD>,
}

impl<BD> BatchedInstanceBuffer<BD> {
    /// Creates a new, empty buffer.
    pub fn new() -> (r: Self)
        ensures
            r.data@.len() == 0,
    {
        BatchedInstanceBuffer { data: Vec::new() }
    }

    /// Appends one item and gives the index it can be found at.
    pub fn push(&mut self, item: BD) -> (r: usize)
        ensures
            r == old(self).data@.len(),
            final(self).data@ == old(self).data@.push(item),
    {
        let r = self.data.len();
        self.data.push(item);
        r
    }

    pub fn len(&self) -> (r: usize)
        ensures
            r == self.data@.len(),
    {
        self.data.len()
    }

    pub fn is_empty(&self) -> (r: bool)
        ensures
            r == (self.data@.len() == 0),
    {
        self.data.len() == 0
    }

    /// Drops every item, ready for the next frame.
    pub fn clear(&mut self)
        ensures
            final(self).data@.len() == 0,
    {
        self.data.clear();
    }
}

/// Pushes the batch data of one item of a sorted phase, when it has any, and
/// gives the range of buffer indices it is drawn with: one instance, at the
/// index where it was pushed. An item without batch data is not drawn from
/// the buffer and leaves it as it was. (Buffers here are storage buffers, so
/// there is no dynamic offset to hand back.)
pub fn prepare_sorted_item<BD>(buffer: &mut BatchedInstanceBuffer<BD>, data: Option<BD>) -> (r: Option<(usize, usize)>)
    requires
        old(buffer).data@.len() < usize::MAX,
    ensures
        data is None ==> r is None && final(buffer).data@ == old(buffer).data@,
        data matches Some(d) ==> r == Some((old(buffer).data@.len() as usize, (old(buffer).data@.len() + 1) as usize))
            && final(buffer).data@ == old(buffer).data@.push(d),
{
    match data {
        Some(d) => {
            let index = buffer.push(d);
            Some((index, index + 1))
        },
        None => None,
    }
}

/// A run of instances drawn with one call: buffer indices `start..end`, all
/// at the same dynamic offset.
#[derive(Clone, Copy, Debug, PartialEq, Eq, Structural)]
pub struct BinnedBatch {
    pub representative_entity: Entity,
    pub start: u32,
    pub end: u32,
    pub dynamic_offset: Option<u32>,
}

/// The batches after one more instance, of `entity` at buffer index `index`:
/// it extends the last batch when it directly follows it at the same dynamic
/// offset, and opens a new batch otherwise.
pub open spec fn add_instance_spec(
    batches: Seq<BinnedBatch>,
    entity: Entity,
    index: u32,
    dynamic_offset: Option<u32>,
) -> Seq<BinnedBatch> {
    if batches.len() > 0 && batches.last().end == index && batches.last().dynamic_offset == dynamic_offset {
        batches.update(batches.len() - 1, BinnedBatch { end: (index + 1) as u32, ..batches.last() })
    } else {
        batches.push(BinnedBatch { representative_entity: entity, start: index, end: (index + 1) as u32, dynamic_offset })
    }
}

/// The batches of a bin whose instances, in order, belong to `entities` and
/// sit at `instances` (buffer index and dynamic offset).
pub open spec fn batches_of(entities: Seq<Entity>, instances: Seq<(u32, Option<u32>)>) -> Seq<BinnedBatch>
    decreases entities.len(),
{
    if entities.len() == 0 || instances.len() != entities.len() {
        Seq::empty()
    } else {
        let n = entities.len() - 1;
        add_instance_spec(
            batches_of(entities.subrange(0, n), instances.subrange(0, n)),
            entities[n],
            instances[n].0,
            instances[n].1,
        )
    }
}

/// Adds one instance to a bin's batches.
pub fn add_instance(batches: &mut Vec<BinnedBatch>, entity: Entity, index: u32, dynamic_offset: Option<u32>)
    requires
        index < u32::MAX,
    ensures
        final(batches)@ == add_instance_spec(old(batches)@, entity, index, dynamic_offset),
{
    let n = batches.len();
    if n > 0 && batches[n - 1].end == index && batches[n - 1].dynamic_offset == dynamic_offset {
        let last = batches[n - 1];
        batches.set(n - 1, BinnedBatch { end: index + 1, ..last });
    } else {
        batches.push(BinnedBatch { representative_entity: entity, start: index, end: index + 1, dynamic_offset });
    }
}

/// Groups a bin's instances, in order, into batches of consecutive buffer
/// indices at one dynamic offset.
pub fn batch_bin(entities: &Vec<Entity>, instances: &Vec<(u32, Option<u32>)>) -> (r: Vec<BinnedBatch>)
    requires
        entities@.len() == instances@.len(),
        forall|i: int| 0 <= i < instances@.len() ==> (#[trigger] instances@[i]).0 < u32::MAX,
    ensures
        r@ == batches_of(entities@, instances@),
{
    let mut r: Vec<BinnedBatch> = Vec::new();
    let mut i: usize = 0;
    while i < entities.len()
        invariant
            entities@.len() == instances@.len(),
            forall|j: int| 0 <= j < instances@.len() ==> (#[trigger] instances@[j]).0 < u32::MAX,
            i <= entities@.len(),
            r@ == batches_of(entities@.subrange(0, i as int), instances@.subrange(0, i as int)),
        decreases entities@.len() - i,
    {
        let inst = instances[i];
        add_instance(&mut r, entities[i], inst.0, inst.1);
        proof {
            let es = entities@.subrange(0, i + 1);
            let is = instances@.subrange(0, i + 1);
            assert(es.subrange(0, i as int) =~= entities@.subrange(0, i as int));
            assert(is.subrange(0, i as int) =~= instances@.subrange(0, i as int));
        }
        i = i + 1;
    }
    proof {
        assert(entities@.subrange(0, i as int) =~= entities@);
        assert(instances@.subrange(0, i as int) =~= instances@);
    }
    r
}

} // verus!
