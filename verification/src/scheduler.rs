//! The job handle table, the deferred mutation queue, and the per-tick
//! poll/apply step.
//!
//! Spawning a job records a [`Job`] in the handle table; exactly one
//! handle exists per spawned job, and a slot with no handle is not
//! currently computing. Each tick the scheduler is told which jobs'
//! results have arrived (a single non-blocking check per job on the
//! execution substrate), moves each completed job's batch into the
//! deferred mutation queue in observation order, drops the handle, and
//! then applies the whole queue to the world exactly once and clears it.
//! A job whose result never arrives is simply re-checked next tick.

use vstd::prelude::*;
use crate::batch::{batch_entities, spawned_entities, MutationBatch, MutationOp};
use crate::ids::{below, disjoint_ids, lemma_below_absent, lemma_nodup_concat, nodup};
use crate::registry::ResourceHandle;
use crate::world::{ids_of, Entity, Position, ScreenTag, World};

verus! {

/// Lower bound, in milliseconds, of the randomized artificial delay a
/// background job sleeps before completing.
pub const DELAY_MIN_MS: u64 = 50;

/// Exclusive upper bound, in milliseconds, of that delay.
pub const DELAY_MAX_MS: u64 = 5000;

/// One outstanding background computation: the owning slot, the inputs
/// of the eventual mutation, and the artificial delay the job sleeps.
#[derive(Clone, Copy, PartialEq, Eq, Structural, Debug)]
pub struct Job {
    pub slot: u64,
    pub position: Position,
    pub mesh: ResourceHandle,
    pub material: ResourceHandle,
    pub tag: ScreenTag,
    pub delay_ms: u64,
}

/// The eventual computed value of one job (here: its spatial placement)
/// before it is packaged into a mutation batch.
#[derive(Clone, Copy, PartialEq, Eq, Structural, Debug)]
pub struct PendingResult {
    pub position: Position,
}

/// The slots of the jobs, in table order.
pub open spec fn slots_of(jobs: Seq<Job>) -> Seq<u64> {
    jobs.map_values(|j: Job| j.slot)
}

/// The jobs still outstanding once those named in `completed` are removed.
pub open spec fn remaining_jobs(jobs: Seq<Job>, completed: Seq<u64>) -> Seq<Job>
    decreases jobs.len(),
{
    if jobs.len() == 0 {
        Seq::empty()
    } else {
        remaining_jobs(jobs.drop_last(), completed) + if completed.contains(jobs.last().slot) {
            Seq::empty()
        } else {
            seq![jobs.last()]
        }
    }
}

/// The jobs observed complete, in table order.
pub open spec fn completed_jobs(jobs: Seq<Job>, completed: Seq<u64>) -> Seq<Job>
    decreases jobs.len(),
{
    if jobs.len() == 0 {
        Seq::empty()
    } else {
        completed_jobs(jobs.drop_last(), completed) + if completed.contains(jobs.last().slot) {
            seq![jobs.last()]
        } else {
            Seq::empty()
        }
    }
}

/// The operations of the batch a completed job packages: spawn one
/// entity at the job's position, with the job's handles and tag, under
/// the job's own slot identifier.
pub open spec fn job_ops(j: Job) -> Seq<MutationOp> {
    seq![
        MutationOp::SpawnEntity {
            id: j.slot,
            position: j.position,
            mesh: j.mesh,
            material: j.material,
            tag: j.tag,
        },
    ]
}

/// The one entity a job's batch materializes.
pub open spec fn job_entity(j: Job) -> Entity {
    Entity { id: j.slot, position: j.position, mesh: j.mesh, material: j.material, tag: j.tag }
}

/// The entities the given jobs' batches materialize, in order.
pub open spec fn entities_of_jobs(jobs: Seq<Job>) -> Seq<Entity> {
    jobs.map_values(|j: Job| job_entity(j))
}

/// The identifiers of every entity the queued batches will materialize.
pub open spec fn queued_ids(queue: Seq<MutationBatch>) -> Seq<u64> {
    ids_of(spawned_entities(queue))
}

/// The scheduler: the job handle table, the deferred mutation queue,
/// and the counter all fresh identifiers are drawn from.
pub struct Scheduler {
    pub jobs: Vec<Job>,
    pub queue: Vec<MutationBatch>,
    pub next_slot: u64,
}

/// The core invariant tying a scheduler to a world's entities: every
/// identifier — of a live entity, of an outstanding job's slot, and of
/// an entity a queued batch will create — is unique across all three
/// places and below the allocation counter.
pub open spec fn wf(s: Scheduler, entities: Seq<Entity>) -> bool {
    &&& nodup(ids_of(entities))
    &&& nodup(slots_of(s.jobs@))
    &&& nodup(queued_ids(s.queue@))
    &&& disjoint_ids(ids_of(entities), slots_of(s.jobs@))
    &&& disjoint_ids(ids_of(entities), queued_ids(s.queue@))
    &&& disjoint_ids(slots_of(s.jobs@), queued_ids(s.queue@))
    &&& below(ids_of(entities), s.next_slot)
    &&& below(slots_of(s.jobs@), s.next_slot)
    &&& below(queued_ids(s.queue@), s.next_slot)
}

/// A job is among the completed ones exactly when it is in the table and
/// its slot was observed complete.
pub proof fn lemma_completed_membership(jobs: Seq<Job>, completed: Seq<u64>, j: Job)
    ensures
        completed_jobs(jobs, completed).contains(j) <==> (jobs.contains(j) && completed.contains(
            j.slot,
        )),
    decreases jobs.len(),
{
    if jobs.len() > 0 {
        lemma_completed_membership(jobs.drop_last(), completed, j);
        let rest = completed_jobs(jobs.drop_last(), completed);
        let tail = if completed.contains(jobs.last().slot) {
            seq![jobs.last()]
        } else {
            Seq::<Job>::empty()
        };
        assert forall|x: Job| (rest + tail).contains(x) implies rest.contains(x) || tail.contains(
            x,
        ) by {
            let i = choose|i: int| 0 <= i < (rest + tail).len() && (rest + tail)[i] == x;
            if i < rest.len() {
                assert(rest[i] == x);
            } else {
                assert(tail[i - rest.len()] == x);
            }
        }
        if rest.contains(j) {
            let i = choose|i: int| 0 <= i < rest.len() && rest[i] == j;
            assert((rest + tail)[i] == j);
        }
        if tail.contains(j) {
            assert((rest + tail)[rest.len() as int] == j);
        }
        assert(jobs.contains(j) <==> (jobs.drop_last().contains(j) || jobs.last() == j)) by {
            if jobs.contains(j) {
                let i = choose|i: int| 0 <= i < jobs.len() && jobs[i] == j;
                if i < jobs.len() - 1 {
                    assert(jobs.drop_last()[i] == j);
                }
            }
            if jobs.drop_last().contains(j) {
                let i = choose|i: int| 0 <= i < jobs.drop_last().len() && jobs.drop_last()[i] == j;
                assert(jobs[i] == j);
            }
        }
    }
}

/// A job remains exactly when it is in the table and its slot was not
/// observed complete.
pub proof fn lemma_remaining_membership(jobs: Seq<Job>, completed: Seq<u64>, j: Job)
    ensures
        remaining_jobs(jobs, completed).contains(j) <==> (jobs.contains(j) && !completed.contains(
            j.slot,
        )),
    decreases jobs.len(),
{
    if jobs.len() > 0 {
        lemma_remaining_membership(jobs.drop_last(), completed, j);
        let rest = remaining_jobs(jobs.drop_last(), completed);
        let tail = if completed.contains(jobs.last().slot) {
            Seq::<Job>::empty()
        } else {
            seq![jobs.last()]
        };
        assert forall|x: Job| (rest + tail).contains(x) implies rest.contains(x) || tail.contains(
            x,
        ) by {
            let i = choose|i: int| 0 <= i < (rest + tail).len() && (rest + tail)[i] == x;
            if i < rest.len() {
                assert(rest[i] == x);
            } else {
                assert(tail[i - rest.len()] == x);
            }
        }
        if rest.contains(j) {
            let i = choose|i: int| 0 <= i < rest.len() && rest[i] == j;
            assert((rest + tail)[i] == j);
        }
        if tail.contains(j) {
            assert((rest + tail)[rest.len() as int] == j);
        }
        assert(jobs.contains(j) <==> (jobs.drop_last().contains(j) || jobs.last() == j)) by {
            if jobs.contains(j) {
                let i = choose|i: int| 0 <= i < jobs.len() && jobs[i] == j;
                if i < jobs.len() - 1 {
                    assert(jobs.drop_last()[i] == j);
                }
            }
            if jobs.drop_last().contains(j) {
                let i = choose|i: int| 0 <= i < jobs.drop_last().len() && jobs.drop_last()[i] == j;
                assert(jobs[i] == j);
            }
        }
    }
}

/// A slot among the remaining jobs' slots is a table slot that was not
/// observed complete.
pub proof fn lemma_remaining_slot(jobs: Seq<Job>, completed: Seq<u64>, x: u64)
    requires
        slots_of(remaining_jobs(jobs, completed)).contains(x),
    ensures
        slots_of(jobs).contains(x),
        !completed.contains(x),
{
    let r = remaining_jobs(jobs, completed);
    let i = choose|i: int| 0 <= i < slots_of(r).len() && slots_of(r)[i] == x;
    assert(slots_of(r)[i] == r[i].slot);
    assert(r.contains(r[i]));
    lemma_remaining_membership(jobs, completed, r[i]);
    let k = choose|k: int| 0 <= k < jobs.len() && jobs[k] == r[i];
    assert(slots_of(jobs)[k] == x);
}

/// A slot among the completed jobs' slots is a table slot that was
/// observed complete.
pub proof fn lemma_completed_slot(jobs: Seq<Job>, completed: Seq<u64>, x: u64)
    requires
        slots_of(completed_jobs(jobs, completed)).contains(x),
    ensures
        slots_of(jobs).contains(x),
        completed.contains(x),
{
    let r = completed_jobs(jobs, completed);
    let i = choose|i: int| 0 <= i < slots_of(r).len() && slots_of(r)[i] == x;
    assert(slots_of(r)[i] == r[i].slot);
    assert(r.contains(r[i]));
    lemma_completed_membership(jobs, completed, r[i]);
    let k = choose|k: int| 0 <= k < jobs.len() && jobs[k] == r[i];
    assert(slots_of(jobs)[k] == x);
}

/// Splitting a duplicate-free table leaves both sides duplicate-free.
pub proof fn lemma_split_nodup(jobs: Seq<Job>, completed: Seq<u64>)
    requires
        nodup(slots_of(jobs)),
    ensures
        nodup(slots_of(remaining_jobs(jobs, completed))),
        nodup(slots_of(completed_jobs(jobs, completed))),
    decreases jobs.len(),
{
    if jobs.len() > 0 {
        let dl = jobs.drop_last();
        assert(nodup(slots_of(dl))) by {
            assert(slots_of(dl) =~= slots_of(jobs).drop_last());
            assert(forall|i: int|
                0 <= i < slots_of(jobs).drop_last().len() ==> slots_of(jobs).drop_last()[i]
                    == slots_of(jobs)[i]);
        }
        lemma_split_nodup(dl, completed);
        let last_slot = jobs.last().slot;
        assert(!slots_of(dl).contains(last_slot)) by {
            if slots_of(dl).contains(last_slot) {
                let i = choose|i: int|
                    0 <= i < slots_of(dl).len() && slots_of(dl)[i] == last_slot;
                assert(slots_of(jobs)[i] == last_slot);
                assert(slots_of(jobs)[jobs.len() - 1] == last_slot);
            }
        }
        if completed.contains(last_slot) {
            assert(remaining_jobs(jobs, completed) =~= remaining_jobs(dl, completed));
            let c = completed_jobs(dl, completed);
            assert(completed_jobs(jobs, completed) =~= c.push(jobs.last()));
            assert(slots_of(c.push(jobs.last())) =~= slots_of(c).push(last_slot));
            assert(!slots_of(c).contains(last_slot)) by {
                if slots_of(c).contains(last_slot) {
                    lemma_completed_slot(dl, completed, last_slot);
                }
            }
            assert forall|i: int, j: int|
                0 <= i < j < slots_of(c).push(last_slot).len() implies slots_of(c).push(
                last_slot,
            )[i] != slots_of(c).push(last_slot)[j] by {
                if j == slots_of(c).len() {
                    assert(slots_of(c).contains(slots_of(c)[i]));
                }
            }
            assert(nodup(slots_of(completed_jobs(jobs, completed))));
        } else {
            assert(completed_jobs(jobs, completed) =~= completed_jobs(dl, completed));
            let r = remaining_jobs(dl, completed);
            assert(remaining_jobs(jobs, completed) =~= r.push(jobs.last()));
            assert(slots_of(r.push(jobs.last())) =~= slots_of(r).push(last_slot));
            assert(!slots_of(r).contains(last_slot)) by {
                if slots_of(r).contains(last_slot) {
                    lemma_remaining_slot(dl, completed, last_slot);
                }
            }
            assert forall|i: int, j: int|
                0 <= i < j < slots_of(r).push(last_slot).len() implies slots_of(r).push(
                last_slot,
            )[i] != slots_of(r).push(last_slot)[j] by {
                if j == slots_of(r).len() {
                    assert(slots_of(r).contains(slots_of(r)[i]));
                }
            }
            assert(nodup(slots_of(remaining_jobs(jobs, completed))));
        }
    }
}

/// Relies on rand's `random_range` over a half-open integer range: the
/// sampled value lies in the range; the call panics only on an empty
/// range, which the precondition rules out.
#[verifier::external_body]
fn sample_delay_ms(lo: u64, hi: u64) -> (r: u64)
    requires
        lo < hi,
    ensures
        lo <= r < hi,
{
    rand::random_range(lo..hi)
}

/// Perform one job's pure computation: the placement it was spawned for.
pub fn compute_result(j: &Job) -> (r: PendingResult)
    ensures
        r.position == j.position,
{
    PendingResult { position: j.position }
}

/// Package a job's computed result into the mutation batch that — once
/// applied — creates one renderable entity at the computed position,
/// with the job's resource handles, tagged for later bulk cleanup.
pub fn build_batch(j: &Job, r: PendingResult) -> (b: MutationBatch)
    requires
        r.position == j.position,
    ensures
        b.ops@ == job_ops(*j),
{
    let mut ops: Vec<MutationOp> = Vec::new();
    ops.push(
        MutationOp::SpawnEntity {
            id: j.slot,
            position: r.position,
            mesh: j.mesh,
            material: j.material,
            tag: j.tag,
        },
    );
    proof {
        assert(ops@ =~= job_ops(*j));
    }
    MutationBatch { ops }
}

/// Run one background job's work, except for its artificial delay:
/// compute the result, then package it. The job mutates no shared state;
/// all its effects are the returned batch.
pub fn run_job(j: &Job) -> (b: MutationBatch)
    ensures
        b.ops@ == job_ops(*j),
{
    let r = compute_result(j);
    build_batch(j, r)
}

impl Scheduler {
    /// A scheduler with no outstanding jobs and an empty queue.
    pub fn new() -> (s: Scheduler)
        ensures
            s.jobs@ == Seq::<Job>::empty(),
            s.queue@ == Seq::<MutationBatch>::empty(),
            s.next_slot == 0,
            wf(s, Seq::<Entity>::empty()),
    {
        let s = Scheduler { jobs: Vec::new(), queue: Vec::new(), next_slot: 0 };
        proof {
            assert(slots_of(s.jobs@) =~= Seq::<u64>::empty());
            assert(queued_ids(s.queue@) =~= Seq::<u64>::empty());
            assert(ids_of(Seq::<Entity>::empty()) =~= Seq::<u64>::empty());
        }
        s
    }

    /// Record one job with an explicit delay, under a fresh slot.
    pub fn spawn_job_with_delay(
        &mut self,
        position: Position,
        mesh: ResourceHandle,
        material: ResourceHandle,
        tag: ScreenTag,
        delay_ms: u64,
    ) -> (slot: u64)
        requires
            old(self).next_slot < u64::MAX,
        ensures
            slot == old(self).next_slot,
            final(self).jobs@ == old(self).jobs@.push(
                Job { slot, position, mesh, material, tag, delay_ms },
            ),
            final(self).queue@ == old(self).queue@,
            final(self).next_slot == old(self).next_slot + 1,
            forall|entities: Seq<Entity>|
                wf(*old(self), entities) ==> wf(*final(self), entities),
    {
        let slot = self.next_slot;
        let j = Job { slot, position, mesh, material, tag, delay_ms };
        self.jobs.push(j);
        self.next_slot = self.next_slot + 1;
        proof {
            assert(slots_of(self.jobs@) =~= slots_of(old(self).jobs@).push(slot));
            assert forall|entities: Seq<Entity>| wf(*old(self), entities) implies wf(
                *self,
                entities,
            ) by {
                let s0 = slots_of(old(self).jobs@);
                lemma_below_absent(s0, old(self).next_slot, slot);
                assert forall|i: int, j2: int|
                    0 <= i < j2 < s0.push(slot).len() implies s0.push(slot)[i] != s0.push(
                    slot,
                )[j2] by {
                    if j2 == s0.len() {
                        assert(s0.contains(s0[i]));
                    }
                }
                assert(nodup(slots_of(self.jobs@)));
                assert forall|i: int, j2: int|
                    0 <= i < ids_of(entities).len() && 0 <= j2 < s0.push(slot).len() implies ids_of(
                    entities,
                )[i] != s0.push(slot)[j2] by {
                    if j2 < s0.len() {
                        assert(s0.push(slot)[j2] == s0[j2]);
                    } else {
                        assert(ids_of(entities)[i] < old(self).next_slot);
                    }
                }
            }
        }
        slot
    }

    /// Spawn one job: sample its artificial delay uniformly from the
    /// bounded range, then record it under a fresh slot.
    pub fn spawn_job(
        &mut self,
        position: Position,
        mesh: ResourceHandle,
        material: ResourceHandle,
        tag: ScreenTag,
    ) -> (slot: u64)
        requires
            old(self).next_slot < u64::MAX,
        ensures
            slot == old(self).next_slot,
            final(self).jobs@.len() == old(self).jobs@.len() + 1,
            final(self).jobs@.drop_last() == old(self).jobs@,
            final(self).jobs@.last() == (Job {
                slot,
                position,
                mesh,
                material,
                tag,
                delay_ms: final(self).jobs@.last().delay_ms,
            }),
            DELAY_MIN_MS <= final(self).jobs@.last().delay_ms < DELAY_MAX_MS,
            final(self).queue@ == old(self).queue@,
            final(self).next_slot == old(self).next_slot + 1,
            forall|entities: Seq<Entity>|
                wf(*old(self), entities) ==> wf(*final(self), entities),
    {
        let delay_ms = sample_delay_ms(DELAY_MIN_MS, DELAY_MAX_MS);
        let slot = self.spawn_job_with_delay(position, mesh, material, tag, delay_ms);
        proof {
            assert(self.jobs@.drop_last() =~= old(self).jobs@);
        }
        slot
    }

    /// The non-blocking poll step of one tick.
    ///
    /// `completed` names the slots whose jobs' results have arrived since
    /// the last tick, in the order the execution substrate was observed —
    /// no order relative to spawning is assumed. Each completed job's
    /// batch is appended to the queue in that observation order and its
    /// handle is dropped; every other job is left untouched, to be
    /// re-checked next tick.
    pub fn poll_tick(&mut self, completed: &Vec<u64>)
        ensures
            final(self).jobs@ == remaining_jobs(old(self).jobs@, completed@),
            final(self).queue@.len() == old(self).queue@.len() + completed_jobs(
                old(self).jobs@,
                completed@,
            ).len(),
            forall|k: int|
                0 <= k < old(self).queue@.len() ==> final(self).queue@[k] == old(self).queue@[k],
            forall|k: int|
                0 <= k < completed_jobs(old(self).jobs@, completed@).len()
                    ==> final(self).queue@[old(self).queue@.len() + k].ops@ == job_ops(
                    completed_jobs(old(self).jobs@, completed@)[k],
                ),
            spawned_entities(final(self).queue@) == spawned_entities(old(self).queue@)
                + entities_of_jobs(completed_jobs(old(self).jobs@, completed@)),
            final(self).next_slot == old(self).next_slot,
            forall|entities: Seq<Entity>|
                wf(*old(self), entities) ==> wf(*final(self), entities),
    {
        let ghost jobs0 = self.jobs@;
        let ghost queue0 = self.queue@;
        let mut kept: Vec<Job> = Vec::new();
        let mut i: usize = 0;
        while i < self.jobs.len()
            invariant
                0 <= i <= self.jobs@.len(),
                self.jobs@ == jobs0,
                self.next_slot == old(self).next_slot,
                kept@ == remaining_jobs(jobs0.take(i as int), completed@),
                self.queue@.len() == queue0.len() + completed_jobs(
                    jobs0.take(i as int),
                    completed@,
                ).len(),
                forall|k: int| 0 <= k < queue0.len() ==> self.queue@[k] == queue0[k],
                forall|k: int|
                    0 <= k < completed_jobs(jobs0.take(i as int), completed@).len()
                        ==> self.queue@[queue0.len() + k].ops@ == job_ops(
                        completed_jobs(jobs0.take(i as int), completed@)[k],
                    ),
                spawned_entities(self.queue@) == spawned_entities(queue0) + entities_of_jobs(
                    completed_jobs(jobs0.take(i as int), completed@),
                ),
            decreases self.jobs@.len() - i,
        {
            proof {
                assert(jobs0.take(i + 1).drop_last() =~= jobs0.take(i as int));
                assert(jobs0.take(i + 1).last() == jobs0[i as int]);
            }
            let j = self.jobs[i];
            if contains_slot(completed, j.slot) {
                let b = run_job(&j);
                let ghost qpre = self.queue@;
                self.queue.push(b);
                proof {
                    let cpre = completed_jobs(jobs0.take(i as int), completed@);
                    let cpost = completed_jobs(jobs0.take(i + 1), completed@);
                    assert(cpost =~= cpre.push(j));
                    assert(self.queue@.drop_last() =~= qpre);
                    assert(spawned_entities(self.queue@) == spawned_entities(qpre)
                        + batch_entities(b.ops@));
                    assert(batch_entities(job_ops(j)) =~= seq![job_entity(j)]);
                    assert(entities_of_jobs(cpost) =~= entities_of_jobs(cpre).push(job_entity(j)));
                    assert(spawned_entities(queue0) + entities_of_jobs(cpost) =~= spawned_entities(
                        queue0,
                    ) + entities_of_jobs(cpre) + seq![job_entity(j)]);
                    assert(spawned_entities(self.queue@) =~= spawned_entities(queue0)
                        + entities_of_jobs(cpost));
                    assert(remaining_jobs(jobs0.take(i + 1), completed@) =~= remaining_jobs(
                        jobs0.take(i as int),
                        completed@,
                    ));
                }
            } else {
                kept.push(j);
                proof {
                    assert(completed_jobs(jobs0.take(i + 1), completed@) =~= completed_jobs(
                        jobs0.take(i as int),
                        completed@,
                    ));
                    assert(kept@ =~= remaining_jobs(jobs0.take(i as int), completed@).push(j));
                    assert(remaining_jobs(jobs0.take(i + 1), completed@) =~= remaining_jobs(
                        jobs0.take(i as int),
                        completed@,
                    ).push(j));
                }
            }
            i = i + 1;
        }
        proof {
            assert(jobs0.take(jobs0.len() as int) =~= jobs0);
        }
        self.jobs = kept;
        proof {
            assert forall|entities: Seq<Entity>| wf(*old(self), entities) implies wf(
                *self,
                entities,
            ) by {
                lemma_wf_after_poll(*old(self), *self, completed@, entities);
            }
        }
    }

    /// The application step of one tick: apply every queued batch to the
    /// world, in the order the batches were appended, exactly once, and
    /// clear the queue. The single point of world mutation.
    pub fn apply_queue(&mut self, world: &mut World)
        ensures
            final(world).entities@ == old(world).entities@ + spawned_entities(old(self).queue@),
            final(self).queue@ == Seq::<MutationBatch>::empty(),
            final(self).jobs@ == old(self).jobs@,
            final(self).next_slot == old(self).next_slot,
            wf(*old(self), old(world).entities@) ==> wf(*final(self), final(world).entities@),
    {
        let ghost entities0 = world.entities@;
        let ghost queue0 = self.queue@;
        let mut i: usize = 0;
        while i < self.queue.len()
            invariant
                0 <= i <= self.queue@.len(),
                self.queue@ == queue0,
                self.jobs@ == old(self).jobs@,
                self.next_slot == old(self).next_slot,
                world.entities@ == entities0 + spawned_entities(queue0.take(i as int)),
            decreases self.queue@.len() - i,
        {
            proof {
                assert(queue0.take(i + 1).drop_last() =~= queue0.take(i as int));
                assert(queue0.take(i + 1).last() == queue0[i as int]);
            }
            let ghost epre = world.entities@;
            self.queue[i].apply(world);
            proof {
                assert(world.entities@ =~= entities0 + spawned_entities(queue0.take(i + 1)));
            }
            i = i + 1;
        }
        proof {
            assert(queue0.take(queue0.len() as int) =~= queue0);
        }
        self.queue = Vec::new();
        proof {
            if wf(*old(self), entities0) {
                assert(queued_ids(self.queue@) =~= Seq::<u64>::empty());
                assert(ids_of(world.entities@) =~= ids_of(entities0) + queued_ids(queue0));
                lemma_nodup_concat(ids_of(entities0), queued_ids(queue0));
                assert(nodup(ids_of(world.entities@)));
                assert forall|i2: int, j2: int|
                    0 <= i2 < ids_of(world.entities@).len() && 0 <= j2 < slots_of(
                        self.jobs@,
                    ).len() implies ids_of(world.entities@)[i2] != slots_of(self.jobs@)[j2] by {
                    if i2 < ids_of(entities0).len() {
                        assert(ids_of(world.entities@)[i2] == ids_of(entities0)[i2]);
                    } else {
                        assert(ids_of(world.entities@)[i2] == queued_ids(queue0)[i2 - ids_of(
                            entities0,
                        ).len()]);
                    }
                }
                assert(below(ids_of(world.entities@), self.next_slot)) by {
                    assert forall|i2: int|
                        0 <= i2 < ids_of(world.entities@).len() implies ids_of(
                        world.entities@,
                    )[i2] < self.next_slot by {
                        if i2 < ids_of(entities0).len() {
                            assert(ids_of(world.entities@)[i2] == ids_of(entities0)[i2]);
                        } else {
                            assert(ids_of(world.entities@)[i2] == queued_ids(queue0)[i2 - ids_of(
                                entities0,
                            ).len()]);
                        }
                    }
                }
            }
        }
    }

    /// One whole tick: poll every outstanding job without blocking, then
    /// apply the queue to the world exactly once.
    pub fn run_tick(&mut self, world: &mut World, completed: &Vec<u64>)
        ensures
            final(self).jobs@ == remaining_jobs(old(self).jobs@, completed@),
            final(self).queue@ == Seq::<MutationBatch>::empty(),
            final(self).next_slot == old(self).next_slot,
            final(world).entities@ == tick_entities(
                old(world).entities@,
                *old(self),
                completed@,
            ),
            wf(*old(self), old(world).entities@) ==> wf(*final(self), final(world).entities@),
    {
        self.poll_tick(completed);
        self.apply_queue(world);
        proof {
            assert(world.entities@ =~= tick_entities(
                old(world).entities@,
                *old(self),
                completed@,
            ));
        }
    }
}

/// The world's entities after one tick: the ones already present, then
/// the batches already queued, then the batches of the jobs observed
/// complete this tick, in observation order.
pub open spec fn tick_entities(
    entities: Seq<Entity>,
    s: Scheduler,
    completed: Seq<u64>,
) -> Seq<Entity> {
    entities + spawned_entities(s.queue@) + entities_of_jobs(completed_jobs(s.jobs@, completed))
}

/// The scheduler after a poll preserves the core invariant, whatever the
/// world's entities are.
proof fn lemma_wf_after_poll(
    pre: Scheduler,
    post: Scheduler,
    completed: Seq<u64>,
    entities: Seq<Entity>,
)
    requires
        wf(pre, entities),
        post.jobs@ == remaining_jobs(pre.jobs@, completed),
        post.next_slot == pre.next_slot,
        spawned_entities(post.queue@) == spawned_entities(pre.queue@) + entities_of_jobs(
            completed_jobs(pre.jobs@, completed),
        ),
    ensures
        wf(post, entities),
{
    let slots0 = slots_of(pre.jobs@);
    let rem = slots_of(remaining_jobs(pre.jobs@, completed));
    let com = slots_of(completed_jobs(pre.jobs@, completed));
    let q0 = queued_ids(pre.queue@);
    lemma_split_nodup(pre.jobs@, completed);
    assert(ids_of(entities_of_jobs(completed_jobs(pre.jobs@, completed))) =~= com);
    assert(queued_ids(post.queue@) =~= q0 + com);
    // The remaining jobs' slots stay duplicate-free.
    assert(nodup(slots_of(post.jobs@)));
    // The new queue identifiers: the old ones, then the completed slots.
    assert(nodup(queued_ids(post.queue@))) by {
        assert forall|i: int, j: int| 0 <= i < q0.len() && 0 <= j < com.len() implies q0[i]
            != com[j] by {
            assert(com.contains(com[j]));
            lemma_completed_slot(pre.jobs@, completed, com[j]);
            let k = choose|k: int| 0 <= k < slots0.len() && slots0[k] == com[j];
        }
        lemma_nodup_concat(q0, com);
    }
    // Live entity identifiers avoid the remaining slots.
    assert forall|i: int, j: int|
        0 <= i < ids_of(entities).len() && 0 <= j < rem.len() implies ids_of(entities)[i]
        != rem[j] by {
        assert(rem.contains(rem[j]));
        lemma_remaining_slot(pre.jobs@, completed, rem[j]);
        let k = choose|k: int| 0 <= k < slots0.len() && slots0[k] == rem[j];
    }
    // Live entity identifiers avoid the new queue identifiers.
    assert forall|i: int, j: int|
        0 <= i < ids_of(entities).len() && 0 <= j < queued_ids(post.queue@).len() implies ids_of(
        entities,
    )[i] != queued_ids(post.queue@)[j] by {
        if j < q0.len() {
            assert(queued_ids(post.queue@)[j] == q0[j]);
        } else {
            assert(queued_ids(post.queue@)[j] == com[j - q0.len()]);
            assert(com.contains(com[j - q0.len()]));
            lemma_completed_slot(pre.jobs@, completed, com[j - q0.len()]);
            let k = choose|k: int| 0 <= k < slots0.len() && slots0[k] == com[j - q0.len()];
        }
    }
    // Remaining slots avoid the new queue identifiers.
    assert forall|i: int, j: int|
        0 <= i < rem.len() && 0 <= j < queued_ids(post.queue@).len() implies rem[i] != queued_ids(
        post.queue@,
    )[j] by {
        assert(rem.contains(rem[i]));
        lemma_remaining_slot(pre.jobs@, completed, rem[i]);
        let k = choose|k: int| 0 <= k < slots0.len() && slots0[k] == rem[i];
        if j < q0.len() {
            assert(queued_ids(post.queue@)[j] == q0[j]);
        } else {
            assert(queued_ids(post.queue@)[j] == com[j - q0.len()]);
            assert(com.contains(com[j - q0.len()]));
            lemma_completed_slot(pre.jobs@, completed, com[j - q0.len()]);
        }
    }
    // Everything stays below the unchanged allocation counter.
    assert(below(rem, post.next_slot)) by {
        assert forall|i: int| 0 <= i < rem.len() implies rem[i] < post.next_slot by {
            assert(rem.contains(rem[i]));
            lemma_remaining_slot(pre.jobs@, completed, rem[i]);
            let k = choose|k: int| 0 <= k < slots0.len() && slots0[k] == rem[i];
        }
    }
    assert(below(queued_ids(post.queue@), post.next_slot)) by {
        assert forall|i: int|
            0 <= i < queued_ids(post.queue@).len() implies queued_ids(post.queue@)[i]
            < post.next_slot by {
            if i < q0.len() {
                assert(queued_ids(post.queue@)[i] == q0[i]);
            } else {
                assert(queued_ids(post.queue@)[i] == com[i - q0.len()]);
                assert(com.contains(com[i - q0.len()]));
                lemma_completed_slot(pre.jobs@, completed, com[i - q0.len()]);
                let k = choose|k: int| 0 <= k < slots0.len() && slots0[k] == com[i - q0.len()];
            }
        }
    }
}

/// Whether the grid entry for cube coordinate `(x, y, z)` stands at its
/// place in the table: at offset `x*n*n + y*n + z` behind the `len0`
/// jobs already recorded, under the slot drawn at that same offset from
/// `base`, positioned at `(x, y, z + 1)`, with the given handles and
/// tag, and a delay inside the sampling range.
pub open spec fn grid_entry_ok(
    jobs: Seq<Job>,
    len0: int,
    base: u64,
    n: u64,
    x: int,
    y: int,
    z: int,
    mesh: ResourceHandle,
    material: ResourceHandle,
    tag: ScreenTag,
) -> bool {
    let off = x * (n * n) + y * n + z;
    let j = jobs[len0 + off];
    &&& j.slot == base + off
    &&& j.position == (Position { x: x as i64, y: y as i64, z: (z + 1) as i64 })
    &&& j.mesh == mesh
    &&& j.material == material
    &&& j.tag == tag
    &&& DELAY_MIN_MS <= j.delay_ms < DELAY_MAX_MS
}

/// Whether every job of `jobs` from index `len0` (exclusive of what
/// stood before) up to `hi` is a grid job of this spawn: tagged with
/// `tag`, carrying the given handles, its slot drawn consecutively from
/// `base`, its delay inside the sampling range.
pub open spec fn grid_slice_ok(
    jobs: Seq<Job>,
    len0: int,
    hi: int,
    base: u64,
    mesh: ResourceHandle,
    material: ResourceHandle,
    tag: ScreenTag,
) -> bool {
    forall|k: int|
        len0 <= k < hi ==> ((#[trigger] jobs[k]).tag == tag && jobs[k].mesh == mesh
            && jobs[k].material == material && jobs[k].slot == base + k - len0
            && DELAY_MIN_MS <= jobs[k].delay_ms < DELAY_MAX_MS)
}

/// Row-major cube offsets respect the lexicographic order of the
/// coordinates.
proof fn lemma_grid_offset_lt(n: int, x1: int, y1: int, z1: int, x2: int, y2: int, z2: int)
    requires
        0 <= x1,
        0 <= y1 < n,
        0 <= z1 < n,
        0 <= x2,
        0 <= y2,
        0 <= z2,
        x1 < x2 || (x1 == x2 && y1 < y2) || (x1 == x2 && y1 == y2 && z1 < z2),
    ensures
        x1 * (n * n) + y1 * n + z1 < x2 * (n * n) + y2 * n + z2,
{
    assert(x1 * (n * n) + y1 * n + z1 < x2 * (n * n) + y2 * n + z2) by (nonlinear_arith)
        requires
            0 <= x1,
            0 <= y1 < n,
            0 <= z1 < n,
            0 <= x2,
            0 <= y2,
            0 <= z2,
            x1 < x2 || (x1 == x2 && y1 < y2) || (x1 == x2 && y1 == y2 && z1 < z2),
    ;
}

impl Scheduler {
    /// Spawn the initial batch of jobs for a screen: one job per integer
    /// coordinate of the `n` by `n` by `n` cube, in row-major order, each
    /// with a freshly sampled delay and each tagged to produce an entity
    /// marked with `tag`.
    #[verifier::loop_isolation(false)]
    pub fn spawn_grid(
        &mut self,
        n: u64,
        mesh: ResourceHandle,
        material: ResourceHandle,
        tag: ScreenTag,
    )
        requires
            n <= 65535,
            old(self).next_slot + n * n * n <= u64::MAX,
        ensures
            final(self).queue@ == old(self).queue@,
            final(self).next_slot == old(self).next_slot + n * n * n,
            final(self).jobs@.len() == old(self).jobs@.len() + n * n * n,
            forall|k: int|
                0 <= k < old(self).jobs@.len() ==> final(self).jobs@[k] == old(self).jobs@[k],
            forall|x: int, y: int, z: int|
                0 <= x < n && 0 <= y < n && 0 <= z < n ==> grid_entry_ok(
                    final(self).jobs@,
                    old(self).jobs@.len() as int,
                    old(self).next_slot,
                    n,
                    x,
                    y,
                    z,
                    mesh,
                    material,
                    tag,
                ),
            grid_slice_ok(
                final(self).jobs@,
                old(self).jobs@.len() as int,
                final(self).jobs@.len() as int,
                old(self).next_slot,
                mesh,
                material,
                tag,
            ),
            forall|entities: Seq<Entity>|
                wf(*old(self), entities) ==> wf(*final(self), entities),
    {
        let ghost len0 = self.jobs@.len() as int;
        let ghost base = self.next_slot;
        let ghost s0 = *self;
        let mut x: u64 = 0;
        while x < n
            invariant
                0 <= x <= n,
                self.queue@ == s0.queue@,
                self.jobs@.len() == len0 + x * (n * n),
                self.next_slot == base + x * (n * n),
                forall|k: int| 0 <= k < len0 ==> self.jobs@[k] == s0.jobs@[k],
                forall|xi: int, yi: int, zi: int|
                    0 <= xi < x && 0 <= yi < n && 0 <= zi < n ==> grid_entry_ok(
                        self.jobs@,
                        len0,
                        base,
                        n,
                        xi,
                        yi,
                        zi,
                        mesh,
                        material,
                        tag,
                    ),
                grid_slice_ok(self.jobs@, len0, self.jobs@.len() as int, base, mesh, material, tag),
                forall|entities: Seq<Entity>| wf(s0, entities) ==> wf(*self, entities),
            decreases n - x,
        {
            proof {
                assert(x * (n * n) + n * n == (x + 1) * (n * n)) by (nonlinear_arith);
                assert((x + 1) * (n * n) <= n * (n * n)) by (nonlinear_arith)
                    requires
                        x + 1 <= n,
                ;
                assert(n * (n * n) == n * n * n) by (nonlinear_arith);
            }
            let mut y: u64 = 0;
            while y < n
                invariant
                    0 <= x < n,
                    0 <= y <= n,
                    self.queue@ == s0.queue@,
                    self.jobs@.len() == len0 + x * (n * n) + y * n,
                    self.next_slot == base + x * (n * n) + y * n,
                    forall|k: int| 0 <= k < len0 ==> self.jobs@[k] == s0.jobs@[k],
                    forall|xi: int, yi: int, zi: int|
                        0 <= xi < x && 0 <= yi < n && 0 <= zi < n ==> grid_entry_ok(
                            self.jobs@,
                            len0,
                            base,
                            n,
                            xi,
                            yi,
                            zi,
                            mesh,
                            material,
                            tag,
                        ),
                    forall|yi: int, zi: int|
                        0 <= yi < y && 0 <= zi < n ==> grid_entry_ok(
                            self.jobs@,
                            len0,
                            base,
                            n,
                            x as int,
                            yi,
                            zi,
                            mesh,
                            material,
                            tag,
                        ),
                    grid_slice_ok(self.jobs@, len0, self.jobs@.len() as int, base, mesh, material, tag),
                    forall|entities: Seq<Entity>| wf(s0, entities) ==> wf(*self, entities),
                decreases n - y,
            {
                proof {
                    assert(y * n + n == (y + 1) * n) by (nonlinear_arith);
                    assert(x * (n * n) + (y + 1) * n <= n * (n * n)) by (nonlinear_arith)
                        requires
                            x + 1 <= n,
                            y + 1 <= n,
                    ;
                }
                let mut z: u64 = 0;
                while z < n
                    invariant
                        0 <= x < n,
                        0 <= y < n,
                        0 <= z <= n,
                        self.queue@ == s0.queue@,
                        self.jobs@.len() == len0 + x * (n * n) + y * n + z,
                        self.next_slot == base + x * (n * n) + y * n + z,
                        forall|k: int| 0 <= k < len0 ==> self.jobs@[k] == s0.jobs@[k],
                        forall|xi: int, yi: int, zi: int|
                            0 <= xi < x && 0 <= yi < n && 0 <= zi < n ==> grid_entry_ok(
                                self.jobs@,
                                len0,
                                base,
                                n,
                                xi,
                                yi,
                                zi,
                                mesh,
                                material,
                                tag,
                            ),
                        forall|yi: int, zi: int|
                            0 <= yi < y && 0 <= zi < n ==> grid_entry_ok(
                                self.jobs@,
                                len0,
                                base,
                                n,
                                x as int,
                                yi,
                                zi,
                                mesh,
                                material,
                                tag,
                            ),
                        forall|zi: int|
                            0 <= zi < z ==> grid_entry_ok(
                                self.jobs@,
                                len0,
                                base,
                                n,
                                x as int,
                                y as int,
                                zi,
                                mesh,
                                material,
                                tag,
                            ),
                        grid_slice_ok(self.jobs@, len0, self.jobs@.len() as int, base, mesh, material, tag),
                        forall|entities: Seq<Entity>| wf(s0, entities) ==> wf(*self, entities),
                    decreases n - z,
                {
                    proof {
                        assert(x * (n * n) + y * n + z < n * n * n) by (nonlinear_arith)
                            requires
                                0 <= x < n,
                                0 <= y < n,
                                0 <= z < n,
                        ;
                    }
                    let ghost jpre = self.jobs@;
                    let position = Position { x: x as i64, y: y as i64, z: (z + 1) as i64 };
                    self.spawn_job(position, mesh, material, tag);
                    proof {
                        assert(self.jobs@.drop_last() == jpre);
                        assert(forall|k: int| 0 <= k < jpre.len() ==> self.jobs@[k] == jpre[k]);
                        assert forall|xi: int, yi: int, zi: int|
                            0 <= xi < x && 0 <= yi < n && 0 <= zi < n implies grid_entry_ok(
                            self.jobs@,
                            len0,
                            base,
                            n,
                            xi,
                            yi,
                            zi,
                            mesh,
                            material,
                            tag,
                        ) by {
                            lemma_grid_offset_lt(
                                n as int,
                                xi,
                                yi,
                                zi,
                                x as int,
                                y as int,
                                z as int,
                            );
                            assert(grid_entry_ok(
                                jpre,
                                len0,
                                base,
                                n,
                                xi,
                                yi,
                                zi,
                                mesh,
                                material,
                                tag,
                            ));
                        }
                        assert forall|yi: int, zi: int|
                            0 <= yi < y && 0 <= zi < n implies grid_entry_ok(
                            self.jobs@,
                            len0,
                            base,
                            n,
                            x as int,
                            yi,
                            zi,
                            mesh,
                            material,
                            tag,
                        ) by {
                            lemma_grid_offset_lt(
                                n as int,
                                x as int,
                                yi,
                                zi,
                                x as int,
                                y as int,
                                z as int,
                            );
                            assert(grid_entry_ok(
                                jpre,
                                len0,
                                base,
                                n,
                                x as int,
                                yi,
                                zi,
                                mesh,
                                material,
                                tag,
                            ));
                        }
                        assert forall|zi: int| 0 <= zi < z implies grid_entry_ok(
                            self.jobs@,
                            len0,
                            base,
                            n,
                            x as int,
                            y as int,
                            zi,
                            mesh,
                            material,
                            tag,
                        ) by {
                            lemma_grid_offset_lt(
                                n as int,
                                x as int,
                                y as int,
                                zi,
                                x as int,
                                y as int,
                                z as int,
                            );
                            assert(grid_entry_ok(
                                jpre,
                                len0,
                                base,
                                n,
                                x as int,
                                y as int,
                                zi,
                                mesh,
                                material,
                                tag,
                            ));
                        }
                        assert(grid_entry_ok(
                            self.jobs@,
                            len0,
                            base,
                            n,
                            x as int,
                            y as int,
                            z as int,
                            mesh,
                            material,
                            tag,
                        )) by {
                            assert(self.jobs@[len0 + x * (n * n) + y * n + z]
                                == self.jobs@.last());
                        }
                        assert forall|k: int| len0 <= k < self.jobs@.len() implies ((
                        #[trigger] self.jobs@[k]).tag == tag && self.jobs@[k].mesh == mesh
                            && self.jobs@[k].material == material && self.jobs@[k].slot == base + k
                            - len0 && DELAY_MIN_MS <= self.jobs@[k].delay_ms < DELAY_MAX_MS) by {
                            if k < self.jobs@.len() - 1 {
                                assert(self.jobs@[k] == jpre[k]);
                            } else {
                                assert(self.jobs@[k] == self.jobs@.last());
                            }
                        }
                    }
                    z = z + 1;
                }
                y = y + 1;
            }
            x = x + 1;
        }
        proof {
            assert(x * (n * n) == n * n * n) by (nonlinear_arith)
                requires
                    x == n,
            ;
        }
    }
}

/// Whether `slots` names `slot`.
pub fn contains_slot(slots: &Vec<u64>, slot: u64) -> (r: bool)
    ensures
        r == slots@.contains(slot),
{
    let mut i: usize = 0;
    while i < slots.len()
        invariant
            0 <= i <= slots@.len(),
            forall|j: int| 0 <= j < i ==> slots@[j] != slot,
        decreases slots@.len() - i,
    {
        if slots[i] == slot {
            return true;
        }
        i = i + 1;
    }
    false
}

} // verus!
