//! On-enter / on-exit hooks for a screen.
//!
//! The screen state machine itself is an external collaborator; the core
//! only reacts to its transitions. Entering a screen populates the
//! shared resource registry (idempotently) and spawns the initial cube
//! of background jobs, all tagged with that screen. Leaving a screen
//! bulk-removes every entity carrying its tag — and deliberately does
//! not touch the job handle table: in-flight jobs are never cancelled,
//! so one that completes later still materializes its entity, as a
//! documented, observable inconsistency rather than an error.

use vstd::prelude::*;
use crate::registry::{
    lemma_lookup_push_keeps, spec_lookup, Registry, ResourceHandle,
};
use crate::scheduler::{grid_entry_ok, grid_slice_ok, wf, Scheduler};
use crate::world::{without_tag, Entity, GameState, ScreenTag, World};

verus! {

/// The registry key of the shared box mesh asset.
pub const MESH_KEY: u64 = 0;

/// The registry key of the shared box material asset.
pub const MATERIAL_KEY: u64 = 1;

/// The demo workload: one job per integer coordinate of this cube.
pub const NUM_CUBES: u64 = 6;

/// Create the shared box mesh and box material assets and store their
/// handles, so completed jobs can read them later. Idempotent: on a
/// second call both keys are already registered and nothing changes.
pub fn add_assets(registry: &mut Registry) -> (handles: (ResourceHandle, ResourceHandle))
    requires
        old(registry).wf(),
        old(registry).next_handle + 2 <= u64::MAX,
    ensures
        final(registry).wf(),
        spec_lookup(final(registry).entries@, MESH_KEY) == Some(handles.0),
        spec_lookup(final(registry).entries@, MATERIAL_KEY) == Some(handles.1),
        forall|k: int|
            0 <= k < old(registry).entries@.len() ==> final(registry).entries@[k] == old(
                registry,
            ).entries@[k],
        final(registry).entries@.len() <= old(registry).entries@.len() + 2,
        final(registry).next_handle <= old(registry).next_handle + 2,
    {
    let mesh = registry.register(MESH_KEY);
    let ghost mid = registry.entries@;
    let material = registry.register(MATERIAL_KEY);
    proof {
        if spec_lookup(mid, MATERIAL_KEY) is None {
            lemma_lookup_push_keeps(mid, registry.entries@.last(), MESH_KEY);
        }
    }
    (mesh, material)
}

/// The on-enter hook of screen `state`: populate the registry if it is
/// not already populated, then spawn the initial cube of jobs, each
/// tagged to eventually produce an entity marked with `state`'s tag.
pub fn on_enter(state: GameState, registry: &mut Registry, sched: &mut Scheduler) -> (handles: (
    ResourceHandle,
    ResourceHandle,
))
    requires
        old(registry).wf(),
        old(registry).next_handle + 2 <= u64::MAX,
        old(sched).next_slot + NUM_CUBES * NUM_CUBES * NUM_CUBES <= u64::MAX,
    ensures
        final(registry).wf(),
        spec_lookup(final(registry).entries@, MESH_KEY) == Some(handles.0),
        spec_lookup(final(registry).entries@, MATERIAL_KEY) == Some(handles.1),
        final(sched).queue@ == old(sched).queue@,
        final(sched).next_slot == old(sched).next_slot + NUM_CUBES * NUM_CUBES * NUM_CUBES,
        final(sched).jobs@.len() == old(sched).jobs@.len() + NUM_CUBES * NUM_CUBES * NUM_CUBES,
        forall|k: int|
            0 <= k < old(sched).jobs@.len() ==> final(sched).jobs@[k] == old(sched).jobs@[k],
        forall|x: int, y: int, z: int|
            0 <= x < NUM_CUBES && 0 <= y < NUM_CUBES && 0 <= z < NUM_CUBES ==> grid_entry_ok(
                final(sched).jobs@,
                old(sched).jobs@.len() as int,
                old(sched).next_slot,
                NUM_CUBES,
                x,
                y,
                z,
                handles.0,
                handles.1,
                ScreenTag { state },
            ),
        grid_slice_ok(
            final(sched).jobs@,
            old(sched).jobs@.len() as int,
            final(sched).jobs@.len() as int,
            old(sched).next_slot,
            handles.0,
            handles.1,
            ScreenTag { state },
        ),
        forall|entities: Seq<Entity>| wf(*old(sched), entities) ==> wf(*final(sched), entities),
    {
    let (mesh, material) = add_assets(registry);
    sched.spawn_grid(NUM_CUBES, mesh, material, ScreenTag { state });
    (mesh, material)
}

/// The on-exit hook of screen `state`: bulk-remove every entity carrying
/// the screen's tag, and only those. The job handle table is not
/// touched: jobs still in flight from this screen run to completion.
pub fn on_exit(state: GameState, world: &mut World)
    ensures
        final(world).entities@ == without_tag(old(world).entities@, ScreenTag { state }),
        old(world).wf() ==> final(world).wf(),
        forall|s: Scheduler|
            wf(s, old(world).entities@) ==> wf(s, final(world).entities@),
    {
    crate::world::despawn_screen(world, ScreenTag { state });
    proof {
        assert forall|s: Scheduler| wf(s, old(world).entities@) implies wf(
            s,
            world.entities@,
        ) by {
            crate::laws::lemma_exit_preserves_wf(s, old(world).entities@, ScreenTag { state });
        }
    }
}

} // verus!
