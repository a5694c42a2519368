//! Deferred mutations, described as data.
//!
//! A completed background job never touches world state directly: it
//! packages everything it wants to change into a [`MutationBatch`], an
//! ordered list of operations that the main tick loop applies later, in
//! full and in order, at the single application point of the tick.

use vstd::prelude::*;
use crate::registry::ResourceHandle;
use crate::world::{Entity, Position, ScreenTag, World};

verus! {

/// One deferred operation on world state.
#[derive(Clone, Copy, PartialEq, Eq, Structural, Debug)]
pub enum MutationOp {
    /// Materialize one renderable entity.
    SpawnEntity {
        id: u64,
        position: Position,
        mesh: ResourceHandle,
        material: ResourceHandle,
        tag: ScreenTag,
    },
}

/// An ordered sequence of operations produced by exactly one completed
/// job. It is applied in full, in order, on the turn that owns world
/// mutation; partial application never happens.
#[derive(Debug)]
pub struct MutationBatch {
    pub ops: Vec<MutationOp>,
}

/// The entity an operation materializes.
pub open spec fn entity_of(op: MutationOp) -> Entity {
    match op {
        MutationOp::SpawnEntity { id, position, mesh, material, tag } => Entity {
            id,
            position,
            mesh,
            material,
            tag,
        },
    }
}

/// The entities a batch's operations materialize, in batch order.
pub open spec fn batch_entities(ops: Seq<MutationOp>) -> Seq<Entity> {
    ops.map_values(|op: MutationOp| entity_of(op))
}

/// The entities a whole queue of batches materializes, batch by batch.
pub open spec fn spawned_entities(queue: Seq<MutationBatch>) -> Seq<Entity>
    decreases queue.len(),
{
    if queue.len() == 0 {
        Seq::empty()
    } else {
        spawned_entities(queue.drop_last()) + batch_entities(queue.last().ops@)
    }
}

impl MutationBatch {
    /// Apply every operation, in order, to the world.
    pub fn apply(&self, world: &mut World)
        ensures
            final(world).entities@ == old(world).entities@ + batch_entities(self.ops@),
    {
        let ghost pre = world.entities@;
        let mut i: usize = 0;
        while i < self.ops.len()
            invariant
                0 <= i <= self.ops@.len(),
                world.entities@ == pre + batch_entities(self.ops@.take(i as int)),
            decreases self.ops@.len() - i,
        {
            let op = self.ops[i];
            match op {
                MutationOp::SpawnEntity { id, position, mesh, material, tag } => {
                    world.entities.push(Entity { id, position, mesh, material, tag });
                },
            }
            proof {
                assert(batch_entities(self.ops@.take(i + 1)) =~= batch_entities(
                    self.ops@.take(i as int),
                ).push(entity_of(self.ops@[i as int])));
                assert(world.entities@ =~= pre + batch_entities(self.ops@.take(i + 1)));
            }
            i = i + 1;
        }
        proof {
            assert(self.ops@.take(self.ops@.len() as int) =~= self.ops@);
        }
    }
}

} // verus!
