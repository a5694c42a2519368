//! Proved statements relating the scheduler's pieces.
//!
//! Each proof function here states one guarantee of the whole design —
//! over the same spec functions the executable functions' contracts use,
//! so that what `run_tick`, `on_exit` and the spawn functions promise is
//! enough to establish them.

use vstd::prelude::*;
use vstd::seq_lib::lemma_multiset_commutative;
use crate::batch::{batch_entities, MutationBatch};
use crate::ids::{lemma_occ_concat, lemma_occ_nodup, lemma_occ_zero, occ};
use crate::scheduler::{
    completed_jobs, entities_of_jobs, job_entity, lemma_completed_membership,
    lemma_remaining_slot, lemma_split_nodup, remaining_jobs, slots_of, tick_entities, wf, Job,
    Scheduler,
};
use crate::world::{
    ids_of, lemma_with_tag_membership, lemma_without_tag_membership, lemma_without_tag_nodup,
    with_tag, without_tag, Entity, ScreenTag,
};

verus! {

/// Exactly-once application: when a tick observes the job of `slot`
/// complete, the world afterwards holds exactly one entity under that
/// identifier — however many sibling jobs complete in the same tick —
/// and the job's handle is gone, so no later tick can apply its batch
/// again.
pub proof fn lemma_exactly_once_application(
    s: Scheduler,
    entities: Seq<Entity>,
    completed: Seq<u64>,
    slot: u64,
)
    requires
        wf(s, entities),
        slots_of(s.jobs@).contains(slot),
        completed.contains(slot),
    ensures
        occ(ids_of(tick_entities(entities, s, completed)), slot) == 1,
        !slots_of(remaining_jobs(s.jobs@, completed)).contains(slot),
{
    let com = slots_of(completed_jobs(s.jobs@, completed));
    let q = crate::scheduler::queued_ids(s.queue@);
    let e0 = ids_of(entities);
    assert(ids_of(tick_entities(entities, s, completed)) =~= e0 + q + ids_of(
        entities_of_jobs(completed_jobs(s.jobs@, completed)),
    ));
    assert(ids_of(entities_of_jobs(completed_jobs(s.jobs@, completed))) =~= com);
    lemma_occ_concat(e0 + q, com, slot);
    lemma_occ_concat(e0, q, slot);
    assert(occ(e0, slot) == 0) by {
        lemma_occ_zero(e0, slot);
        if e0.contains(slot) {
            let i = choose|i: int| 0 <= i < e0.len() && e0[i] == slot;
            let k = choose|k: int| 0 <= k < slots_of(s.jobs@).len() && slots_of(s.jobs@)[k] == slot;
        }
    }
    assert(occ(q, slot) == 0) by {
        lemma_occ_zero(q, slot);
        if q.contains(slot) {
            let i = choose|i: int| 0 <= i < q.len() && q[i] == slot;
            let k = choose|k: int| 0 <= k < slots_of(s.jobs@).len() && slots_of(s.jobs@)[k] == slot;
        }
    }
    assert(occ(com, slot) == 1) by {
        let k = choose|k: int| 0 <= k < slots_of(s.jobs@).len() && slots_of(s.jobs@)[k] == slot;
        assert(s.jobs@.contains(s.jobs@[k]));
        lemma_completed_membership(s.jobs@, completed, s.jobs@[k]);
        let i = choose|i: int|
            0 <= i < completed_jobs(s.jobs@, completed).len() && completed_jobs(
                s.jobs@,
                completed,
            )[i] == s.jobs@[k];
        assert(com[i] == slot);
        assert(com.contains(slot));
        lemma_split_nodup(s.jobs@, completed);
        lemma_occ_nodup(com, slot);
    }
    if slots_of(remaining_jobs(s.jobs@, completed)).contains(slot) {
        lemma_remaining_slot(s.jobs@, completed, slot);
    }
}

/// Non-blocking poll: a tick in which none of the outstanding jobs has
/// completed leaves the handle table exactly as it was and queues
/// nothing — the poll does no work beyond its bounded per-job check.
pub proof fn lemma_nonblocking_poll(jobs: Seq<Job>, completed: Seq<u64>)
    requires
        forall|k: int| 0 <= k < jobs.len() ==> !completed.contains(#[trigger] jobs[k].slot),
    ensures
        remaining_jobs(jobs, completed) == jobs,
        completed_jobs(jobs, completed) == Seq::<Job>::empty(),
    decreases jobs.len(),
{
    if jobs.len() == 0 {
        assert(remaining_jobs(jobs, completed) =~= jobs);
    } else {
        assert(forall|k: int|
            0 <= k < jobs.drop_last().len() ==> jobs.drop_last()[k] == jobs[k]);
        lemma_nonblocking_poll(jobs.drop_last(), completed);
        assert(!completed.contains(jobs[jobs.len() - 1].slot));
        assert(remaining_jobs(jobs, completed) =~= jobs.drop_last().push(jobs.last()));
        assert(jobs.drop_last().push(jobs.last()) =~= jobs);
    }
}

/// Tag completeness, spawn side: when every job of the table was spawned
/// for screen `tag`, every entity their completions materialize carries
/// `tag`.
pub proof fn lemma_tag_completeness(jobs: Seq<Job>, completed: Seq<u64>, tag: ScreenTag)
    requires
        forall|k: int| 0 <= k < jobs.len() ==> (#[trigger] jobs[k]).tag == tag,
    ensures
        forall|k: int|
            0 <= k < entities_of_jobs(completed_jobs(jobs, completed)).len() ==> (
            #[trigger] entities_of_jobs(completed_jobs(jobs, completed))[k]).tag == tag,
{
    let com = completed_jobs(jobs, completed);
    assert forall|k: int|
        0 <= k < entities_of_jobs(com).len() implies (#[trigger] entities_of_jobs(com)[k]).tag
        == tag by {
        assert(entities_of_jobs(com)[k] == job_entity(com[k]));
        assert(com.contains(com[k]));
        lemma_completed_membership(jobs, completed, com[k]);
        let i = choose|i: int| 0 <= i < jobs.len() && jobs[i] == com[k];
    }
}

/// Tag completeness, exit side: after the bulk removal of screen `tag`'s
/// entities, no entity carrying `tag` remains, and every entity of any
/// other screen survives.
pub proof fn lemma_exit_tag_clean(entities: Seq<Entity>, tag: ScreenTag)
    ensures
        forall|k: int|
            0 <= k < without_tag(entities, tag).len() ==> (#[trigger] without_tag(
                entities,
                tag,
            )[k]).tag != tag,
        forall|e: Entity|
            entities.contains(e) && e.tag != tag ==> without_tag(entities, tag).contains(e),
        with_tag(without_tag(entities, tag), tag).len() == 0,
{
    if with_tag(without_tag(entities, tag), tag).len() > 0 {
        let wt = without_tag(entities, tag);
        let e = with_tag(wt, tag)[0];
        assert(with_tag(wt, tag).contains(e));
        lemma_with_tag_membership(wt, tag, e);
        lemma_without_tag_membership(entities, tag, e);
    }
    assert forall|k: int|
        0 <= k < without_tag(entities, tag).len() implies (#[trigger] without_tag(
        entities,
        tag,
    )[k]).tag != tag by {
        assert(without_tag(entities, tag).contains(without_tag(entities, tag)[k]));
        lemma_without_tag_membership(entities, tag, without_tag(entities, tag)[k]);
    }
    assert forall|e: Entity| entities.contains(e) && e.tag != tag implies without_tag(
        entities,
        tag,
    ).contains(e) by {
        lemma_without_tag_membership(entities, tag, e);
    }
}

/// An identifier of an entity surviving the bulk removal is an
/// identifier of the world before it.
proof fn lemma_without_tag_id(entities: Seq<Entity>, tag: ScreenTag, i: int)
    requires
        0 <= i < without_tag(entities, tag).len(),
    ensures
        ids_of(entities).contains(ids_of(without_tag(entities, tag))[i]),
{
    let wt = without_tag(entities, tag);
    assert(ids_of(wt)[i] == wt[i].id);
    assert(wt.contains(wt[i]));
    lemma_without_tag_membership(entities, tag, wt[i]);
    let k = choose|k: int| 0 <= k < entities.len() && entities[k] == wt[i];
    assert(ids_of(entities)[k] == wt[i].id);
}

/// A screen's exit keeps the scheduler and the world consistent: the
/// bulk removal only shrinks the set of live entity identifiers, so the
/// core invariant survives and later ticks stay sound.
pub proof fn lemma_exit_preserves_wf(s: Scheduler, entities: Seq<Entity>, tag: ScreenTag)
    requires
        wf(s, entities),
    ensures
        wf(s, without_tag(entities, tag)),
{
    let wt = without_tag(entities, tag);
    lemma_without_tag_nodup(entities, tag);
    assert forall|i: int, j: int|
        0 <= i < ids_of(wt).len() && 0 <= j < slots_of(s.jobs@).len() implies ids_of(wt)[i]
        != slots_of(s.jobs@)[j] by {
        lemma_without_tag_id(entities, tag, i);
        let k = choose|k: int|
            0 <= k < ids_of(entities).len() && ids_of(entities)[k] == ids_of(wt)[i];
    }
    assert forall|i: int, j: int|
        0 <= i < ids_of(wt).len() && 0 <= j < crate::scheduler::queued_ids(
            s.queue@,
        ).len() implies ids_of(wt)[i] != crate::scheduler::queued_ids(s.queue@)[j] by {
        lemma_without_tag_id(entities, tag, i);
        let k = choose|k: int|
            0 <= k < ids_of(entities).len() && ids_of(entities)[k] == ids_of(wt)[i];
    }
    assert forall|i: int| 0 <= i < ids_of(wt).len() implies ids_of(wt)[i] < s.next_slot by {
        lemma_without_tag_id(entities, tag, i);
        let k = choose|k: int|
            0 <= k < ids_of(entities).len() && ids_of(entities)[k] == ids_of(wt)[i];
    }
}

/// Late completion is visible, not silently dropped: a job still in the
/// table when its screen exits (the exit hook never touches the table)
/// and observed complete on a later tick still materializes its entity —
/// the documented orphan, created rather than lost.
pub proof fn lemma_late_completion_visible(
    s: Scheduler,
    entities: Seq<Entity>,
    tag: ScreenTag,
    completed: Seq<u64>,
    j: Job,
)
    requires
        s.jobs@.contains(j),
        completed.contains(j.slot),
    ensures
        tick_entities(without_tag(entities, tag), s, completed).contains(job_entity(j)),
{
    lemma_completed_membership(s.jobs@, completed, j);
    let com = completed_jobs(s.jobs@, completed);
    let i = choose|i: int| 0 <= i < com.len() && com[i] == j;
    assert(entities_of_jobs(com)[i] == job_entity(j));
    let pre = without_tag(entities, tag) + crate::batch::spawned_entities(s.queue@);
    assert(tick_entities(without_tag(entities, tag), s, completed)[pre.len() + i] == job_entity(
        j,
    ));
}

/// Order-independent correctness: two completed jobs' batches yield the
/// same collection of entities whichever of the two is applied first —
/// a batch never depends on the other's effects.
pub proof fn lemma_order_independent(entities: Seq<Entity>, b1: MutationBatch, b2: MutationBatch)
    ensures
        (entities + batch_entities(b1.ops@) + batch_entities(b2.ops@)).to_multiset() == (entities
            + batch_entities(b2.ops@) + batch_entities(b1.ops@)).to_multiset(),
{
    broadcast use vstd::multiset::group_multiset_axioms;

    let e1 = batch_entities(b1.ops@);
    let e2 = batch_entities(b2.ops@);
    lemma_multiset_commutative(entities + e1, e2);
    lemma_multiset_commutative(entities, e1);
    lemma_multiset_commutative(entities + e2, e1);
    lemma_multiset_commutative(entities, e2);
    assert(entities.to_multiset().add(e1.to_multiset()).add(e2.to_multiset())
        =~= entities.to_multiset().add(e2.to_multiset()).add(e1.to_multiset()));
}

} // verus!
