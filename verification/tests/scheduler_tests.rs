use deferred_scheduler::lifecycle::{add_assets, on_enter, on_exit, MATERIAL_KEY, MESH_KEY, NUM_CUBES};
use deferred_scheduler::registry::{Registry, ResourceHandle, SchedulerError};
use deferred_scheduler::scheduler::{Scheduler, DELAY_MAX_MS, DELAY_MIN_MS};
use deferred_scheduler::world::{GameState, Position, ScreenTag, World};

fn menu_tag() -> ScreenTag {
    ScreenTag { state: GameState::Menu }
}

fn handles() -> (ResourceHandle, ResourceHandle) {
    (ResourceHandle { id: 100 }, ResourceHandle { id: 101 })
}

#[test]
fn scenario_a_single_job_single_tick() {
    let mut world = World::new();
    let mut sched = Scheduler::new();
    let (mesh, material) = handles();
    let pos = Position { x: 0, y: 0, z: 0 };
    let slot = sched.spawn_job_with_delay(pos, mesh, material, menu_tag(), 0);
    sched.run_tick(&mut world, &vec![slot]);
    assert_eq!(world.entities.len(), 1);
    assert_eq!(world.entities[0].position, pos);
    assert_eq!(world.entities[0].tag, menu_tag());
    assert_eq!(world.entities[0].id, slot);
    assert_eq!(sched.jobs.len(), 0);
    assert_eq!(sched.queue.len(), 0);
}

#[test]
fn scenario_b_three_jobs_complete_out_of_order() {
    let mut world = World::new();
    let mut sched = Scheduler::new();
    let (mesh, material) = handles();
    let positions = [
        Position { x: 0, y: 0, z: 0 },
        Position { x: 1, y: 0, z: 0 },
        Position { x: 0, y: 1, z: 0 },
    ];
    let delays: [u64; 3] = [10, 20, 5];
    let mut slots: Vec<u64> = Vec::new();
    for i in 0..3 {
        slots.push(sched.spawn_job_with_delay(positions[i], mesh, material, menu_tag(), delays[i]));
    }
    // The substrate finishes them in delay order: 5 ms, 10 ms, 20 ms.
    sched.run_tick(&mut world, &vec![slots[2]]);
    assert_eq!(world.entities.len(), 1);
    sched.run_tick(&mut world, &vec![slots[0]]);
    assert_eq!(world.entities.len(), 2);
    sched.run_tick(&mut world, &vec![slots[1]]);
    assert_eq!(world.entities.len(), 3);
    // Every position matches its job's input, regardless of completion order.
    for i in 0..3 {
        let found: Vec<&deferred_scheduler::world::Entity> =
            world.entities.iter().filter(|e| e.id == slots[i]).collect();
        assert_eq!(found.len(), 1);
        assert_eq!(found[0].position, positions[i]);
    }
    assert_eq!(sched.jobs.len(), 0);
}

#[test]
fn scenario_c_get_before_register_fails() {
    let registry = Registry::new();
    assert_eq!(registry.get(MESH_KEY), Err(SchedulerError::ResourceNotFound));
    assert_eq!(registry.get(42), Err(SchedulerError::ResourceNotFound));
}

#[test]
fn scenario_d_exit_with_pending_job_leaves_orphan() {
    let mut world = World::new();
    let mut sched = Scheduler::new();
    let (mesh, material) = handles();
    let p0 = Position { x: 0, y: 0, z: 0 };
    let p1 = Position { x: 1, y: 1, z: 1 };
    let s0 = sched.spawn_job_with_delay(p0, mesh, material, menu_tag(), 5);
    let s1 = sched.spawn_job_with_delay(p1, mesh, material, menu_tag(), 5000);
    sched.run_tick(&mut world, &vec![s0]);
    assert_eq!(world.count_tagged(menu_tag()), 1);
    // The screen exits while one job is still pending.
    on_exit(GameState::Menu, &mut world);
    assert_eq!(world.count_tagged(menu_tag()), 0);
    assert_eq!(sched.jobs.len(), 1);
    // The pending job completes later: exactly one new entity appears —
    // the documented orphan.
    sched.run_tick(&mut world, &vec![s1]);
    assert_eq!(world.entities.len(), 1);
    assert_eq!(world.count_tagged(menu_tag()), 1);
    assert_eq!(world.entities[0].id, s1);
    assert_eq!(world.entities[0].position, p1);
}

#[test]
fn exactly_once_repeated_completion_signal() {
    let mut world = World::new();
    let mut sched = Scheduler::new();
    let (mesh, material) = handles();
    let pos = Position { x: 2, y: 3, z: 4 };
    let slot = sched.spawn_job_with_delay(pos, mesh, material, menu_tag(), 0);
    // The slot is even named twice in one tick; its batch applies once.
    sched.run_tick(&mut world, &vec![slot, slot]);
    assert_eq!(world.entities.len(), 1);
    // A later tick that names the same slot again finds no handle and
    // applies nothing.
    sched.run_tick(&mut world, &vec![slot]);
    assert_eq!(world.entities.len(), 1);
    assert_eq!(world.entities[0].id, slot);
}

#[test]
fn non_blocking_poll_changes_nothing() {
    let mut world = World::new();
    let mut sched = Scheduler::new();
    let (mesh, material) = handles();
    for i in 0..3 {
        sched.spawn_job_with_delay(
            Position { x: i, y: 0, z: 0 },
            mesh,
            material,
            menu_tag(),
            1000,
        );
    }
    // A tick in which no job has completed.
    sched.run_tick(&mut world, &Vec::new());
    assert_eq!(world.entities.len(), 0);
    assert_eq!(sched.jobs.len(), 3);
    assert_eq!(sched.queue.len(), 0);
}

#[test]
fn order_independent_same_entities_either_way() {
    let (mesh, material) = handles();
    let p0 = Position { x: 5, y: 6, z: 7 };
    let p1 = Position { x: 8, y: 9, z: 10 };

    let mut collect = |first_second: [usize; 2]| -> Vec<(u64, Position)> {
        let mut world = World::new();
        let mut sched = Scheduler::new();
        let s0 = sched.spawn_job_with_delay(p0, mesh, material, menu_tag(), 0);
        let s1 = sched.spawn_job_with_delay(p1, mesh, material, menu_tag(), 0);
        let slots = [s0, s1];
        sched.run_tick(&mut world, &vec![slots[first_second[0]]]);
        sched.run_tick(&mut world, &vec![slots[first_second[1]]]);
        let mut seen: Vec<(u64, Position)> =
            world.entities.iter().map(|e| (e.id, e.position)).collect();
        seen.sort_by_key(|(id, _)| *id);
        seen
    };
    let a = collect([0, 1]);
    let b = collect([1, 0]);
    assert_eq!(a, b);
    assert_eq!(a.len(), 2);
}

#[test]
fn register_is_idempotent_per_key() {
    let mut registry = Registry::new();
    let first = registry.register(MESH_KEY);
    let second = registry.register(MESH_KEY);
    assert_eq!(first, second);
    assert_eq!(registry.get(MESH_KEY), Ok(first));
    assert_eq!(registry.entries.len(), 1);
}

#[test]
fn add_assets_registers_both_keys() {
    let mut registry = Registry::new();
    let (mesh, material) = add_assets(&mut registry);
    assert_ne!(mesh, material);
    assert_eq!(registry.get(MESH_KEY), Ok(mesh));
    assert_eq!(registry.get(MATERIAL_KEY), Ok(material));
    // A second population finds everything in place and changes nothing.
    let (mesh2, material2) = add_assets(&mut registry);
    assert_eq!(mesh, mesh2);
    assert_eq!(material, material2);
    assert_eq!(registry.entries.len(), 2);
}

#[test]
fn on_enter_spawns_the_whole_cube() {
    let mut registry = Registry::new();
    let mut sched = Scheduler::new();
    let (mesh, material) = on_enter(GameState::Menu, &mut registry, &mut sched);
    let n = NUM_CUBES;
    assert_eq!(sched.jobs.len() as u64, n * n * n);
    // Row-major order: coordinate (1, 2, 3) sits at offset 1*36 + 2*6 + 3.
    let off = (1 * n * n + 2 * n + 3) as usize;
    let job = sched.jobs[off];
    assert_eq!(job.slot, off as u64);
    assert_eq!(job.position, Position { x: 1, y: 2, z: 4 });
    assert_eq!(job.mesh, mesh);
    assert_eq!(job.material, material);
    assert_eq!(job.tag, menu_tag());
    for j in sched.jobs.iter() {
        assert!(j.tag == menu_tag());
        assert!(DELAY_MIN_MS <= j.delay_ms && j.delay_ms < DELAY_MAX_MS);
    }
}

#[test]
fn sampled_delay_stays_in_bounds() {
    let mut sched = Scheduler::new();
    let (mesh, material) = handles();
    for _ in 0..32 {
        sched.spawn_job(Position { x: 0, y: 0, z: 0 }, mesh, material, menu_tag());
    }
    for j in sched.jobs.iter() {
        assert!(DELAY_MIN_MS <= j.delay_ms && j.delay_ms < DELAY_MAX_MS);
    }
}

#[test]
fn despawn_removes_only_the_given_tag() {
    let mut world = World::new();
    let mut sched = Scheduler::new();
    let (mesh, material) = handles();
    let splash = ScreenTag { state: GameState::Splash };
    let a = sched.spawn_job_with_delay(Position { x: 0, y: 0, z: 0 }, mesh, material, menu_tag(), 0);
    let b = sched.spawn_job_with_delay(Position { x: 1, y: 0, z: 0 }, mesh, material, splash, 0);
    sched.run_tick(&mut world, &vec![a, b]);
    assert_eq!(world.entities.len(), 2);
    deferred_scheduler::world::despawn_screen(&mut world, menu_tag());
    assert_eq!(world.entities.len(), 1);
    assert_eq!(world.entities[0].tag, splash);
    assert_eq!(world.count_tagged(menu_tag()), 0);
    assert_eq!(world.count_tagged(splash), 1);
}

#[test]
fn full_screen_lifecycle_round_trip() {
    let mut registry = Registry::new();
    let mut sched = Scheduler::new();
    let mut world = World::new();
    on_enter(GameState::Menu, &mut registry, &mut sched);
    let total = (NUM_CUBES * NUM_CUBES * NUM_CUBES) as usize;

    // Finish the first half of the jobs, one tick each.
    let half: Vec<u64> = (0..(total as u64) / 2).collect();
    sched.run_tick(&mut world, &half);
    assert_eq!(world.entities.len(), total / 2);
    assert_eq!(sched.jobs.len(), total - total / 2);

    // Leave the screen; the finished entities disappear, pending jobs stay.
    on_exit(GameState::Menu, &mut world);
    assert_eq!(world.entities.len(), 0);
    assert_eq!(sched.jobs.len(), total - total / 2);

    // The rest complete later and land as orphans of the old screen.
    let rest: Vec<u64> = ((total as u64) / 2..total as u64).collect();
    sched.run_tick(&mut world, &rest);
    assert_eq!(world.entities.len(), total - total / 2);
    assert_eq!(sched.jobs.len(), 0);
}

#[test]
fn run_job_packages_one_spawn_operation() {
    let (mesh, material) = handles();
    let job = deferred_scheduler::scheduler::Job {
        slot: 9,
        position: Position { x: 3, y: 2, z: 1 },
        mesh,
        material,
        tag: menu_tag(),
        delay_ms: 0,
    };
    let batch = deferred_scheduler::scheduler::run_job(&job);
    assert_eq!(batch.ops.len(), 1);
    let mut world = World::new();
    batch.apply(&mut world);
    assert_eq!(world.entities.len(), 1);
    assert_eq!(world.entities[0].id, 9);
    assert_eq!(world.entities[0].position, Position { x: 3, y: 2, z: 1 });
    assert_eq!(world.entities[0].mesh, mesh);
    assert_eq!(world.entities[0].material, material);
    assert_eq!(world.entities[0].tag, menu_tag());
}

#[test]
fn get_after_register_returns_the_handle() {
    let mut registry = Registry::new();
    let h = registry.register(7);
    assert_eq!(registry.get(7), Ok(h));
    assert_eq!(registry.get(8), Err(SchedulerError::ResourceNotFound));
}
