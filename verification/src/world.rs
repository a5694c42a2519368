//! The shared world state.
//!
//! The world is the single mutation point of the whole system: only the
//! main tick loop ever writes it, by applying queued mutation batches and
//! by bulk-removing entities when a screen is left. Every entity carries
//! the [`ScreenTag`] of the screen that was active when its job was
//! spawned, so that an exit hook can remove exactly that set.

use vstd::prelude::*;
use crate::ids::nodup;
use crate::registry::ResourceHandle;

verus! {

/// The mutually exclusive screens; exactly one is active at a time,
/// starting at the default.
#[derive(Clone, Copy, Default, PartialEq, Eq, Structural, Debug, Hash)]
pub enum GameState {
    #[default]
    Splash,
    Menu,
}

/// Marker grouping entities by the screen during which they were created.
#[derive(Clone, Copy, PartialEq, Eq, Structural, Debug)]
pub struct ScreenTag {
    pub state: GameState,
}

/// A spatial placement, in whole grid units.
#[derive(Clone, Copy, PartialEq, Eq, Structural, Debug)]
pub struct Position {
    pub x: i64,
    pub y: i64,
    pub z: i64,
}

/// One renderable entity: a placement, opaque shape and appearance
/// handles, and the tag of its owning screen.
#[derive(Clone, Copy, PartialEq, Eq, Structural, Debug)]
pub struct Entity {
    pub id: u64,
    pub position: Position,
    pub mesh: ResourceHandle,
    pub material: ResourceHandle,
    pub tag: ScreenTag,
}

/// The identifiers of the entities, in world order.
pub open spec fn ids_of(entities: Seq<Entity>) -> Seq<u64> {
    entities.map_values(|e: Entity| e.id)
}

/// The entities of `entities` that do not carry `tag`, in order.
pub open spec fn without_tag(entities: Seq<Entity>, tag: ScreenTag) -> Seq<Entity>
    decreases entities.len(),
{
    if entities.len() == 0 {
        Seq::empty()
    } else {
        without_tag(entities.drop_last(), tag) + if entities.last().tag == tag {
            Seq::empty()
        } else {
            seq![entities.last()]
        }
    }
}

/// The entities of `entities` that carry `tag`, in order.
pub open spec fn with_tag(entities: Seq<Entity>, tag: ScreenTag) -> Seq<Entity>
    decreases entities.len(),
{
    if entities.len() == 0 {
        Seq::empty()
    } else {
        with_tag(entities.drop_last(), tag) + if entities.last().tag == tag {
            seq![entities.last()]
        } else {
            Seq::empty()
        }
    }
}

/// `without_tag` keeps exactly the entities whose tag differs.
pub proof fn lemma_without_tag_membership(entities: Seq<Entity>, tag: ScreenTag, e: Entity)
    ensures
        without_tag(entities, tag).contains(e) <==> (entities.contains(e) && e.tag != tag),
    decreases entities.len(),
{
    if entities.len() > 0 {
        lemma_without_tag_membership(entities.drop_last(), tag, e);
        let rest = without_tag(entities.drop_last(), tag);
        let tail = if entities.last().tag == tag {
            Seq::<Entity>::empty()
        } else {
            seq![entities.last()]
        };
        assert forall|x: Entity| (rest + tail).contains(x) implies rest.contains(x)
            || tail.contains(x) by {
            let i = choose|i: int| 0 <= i < (rest + tail).len() && (rest + tail)[i] == x;
            if i < rest.len() {
                assert(rest[i] == x);
            } else {
                assert(tail[i - rest.len()] == x);
            }
        }
        if rest.contains(e) {
            let i = choose|i: int| 0 <= i < rest.len() && rest[i] == e;
            assert((rest + tail)[i] == e);
        }
        if tail.contains(e) {
            assert((rest + tail)[rest.len() as int] == e);
        }
        assert(entities.contains(e) <==> (entities.drop_last().contains(e) || entities.last()
            == e)) by {
            if entities.contains(e) {
                let i = choose|i: int| 0 <= i < entities.len() && entities[i] == e;
                if i < entities.len() - 1 {
                    assert(entities.drop_last()[i] == e);
                }
            }
            if entities.drop_last().contains(e) {
                let i = choose|i: int|
                    0 <= i < entities.drop_last().len() && entities.drop_last()[i] == e;
                assert(entities[i] == e);
            }
        }
    }
}

/// `with_tag` keeps exactly the entities whose tag matches.
pub proof fn lemma_with_tag_membership(entities: Seq<Entity>, tag: ScreenTag, e: Entity)
    ensures
        with_tag(entities, tag).contains(e) <==> (entities.contains(e) && e.tag == tag),
    decreases entities.len(),
{
    if entities.len() > 0 {
        lemma_with_tag_membership(entities.drop_last(), tag, e);
        let rest = with_tag(entities.drop_last(), tag);
        let tail = if entities.last().tag == tag {
            seq![entities.last()]
        } else {
            Seq::<Entity>::empty()
        };
        assert forall|x: Entity| (rest + tail).contains(x) implies rest.contains(x)
            || tail.contains(x) by {
            let i = choose|i: int| 0 <= i < (rest + tail).len() && (rest + tail)[i] == x;
            if i < rest.len() {
                assert(rest[i] == x);
            } else {
                assert(tail[i - rest.len()] == x);
            }
        }
        if rest.contains(e) {
            let i = choose|i: int| 0 <= i < rest.len() && rest[i] == e;
            assert((rest + tail)[i] == e);
        }
        if tail.contains(e) {
            assert((rest + tail)[rest.len() as int] == e);
        }
        assert(entities.contains(e) <==> (entities.drop_last().contains(e) || entities.last()
            == e)) by {
            if entities.contains(e) {
                let i = choose|i: int| 0 <= i < entities.len() && entities[i] == e;
                if i < entities.len() - 1 {
                    assert(entities.drop_last()[i] == e);
                }
            }
            if entities.drop_last().contains(e) {
                let i = choose|i: int|
                    0 <= i < entities.drop_last().len() && entities.drop_last()[i] == e;
                assert(entities[i] == e);
            }
        }
    }
}

/// The world: every entity the system has materialized so far.
pub struct World {
    pub entities: Vec<Entity>,
}

impl World {
    /// The world's internal consistency: entity identifiers never repeat.
    pub open spec fn wf(self) -> bool {
        nodup(ids_of(self.entities@))
    }

    /// An empty world.
    pub fn new() -> (w: World)
        ensures
            w.entities@ == Seq::<Entity>::empty(),
            w.wf(),
    {
        World { entities: Vec::new() }
    }

    /// How many entities currently carry `tag`.
    pub fn count_tagged(&self, tag: ScreenTag) -> (n: usize)
        ensures
            n == with_tag(self.entities@, tag).len(),
    {
        let mut n: usize = 0;
        let mut i: usize = 0;
        while i < self.entities.len()
            invariant
                0 <= i <= self.entities@.len(),
                n == with_tag(self.entities@.take(i as int), tag).len(),
                n <= i,
            decreases self.entities@.len() - i,
        {
            proof {
                assert(self.entities@.take(i + 1).drop_last() =~= self.entities@.take(i as int));
                assert(self.entities@.take(i + 1).last() == self.entities@[i as int]);
            }
            if self.entities[i].tag.state == tag.state {
                n = n + 1;
            }
            i = i + 1;
        }
        proof {
            assert(self.entities@.take(self.entities@.len() as int) =~= self.entities@);
        }
        n
    }

    /// Bulk-remove every entity carrying `tag`, keeping all others in
    /// their order.
    pub fn despawn_all_tagged(&mut self, tag: ScreenTag)
        ensures
            final(self).entities@ == without_tag(old(self).entities@, tag),
            old(self).wf() ==> final(self).wf(),
    {
        let mut kept: Vec<Entity> = Vec::new();
        let mut i: usize = 0;
        while i < self.entities.len()
            invariant
                0 <= i <= self.entities@.len(),
                kept@ == without_tag(self.entities@.take(i as int), tag),
            decreases self.entities@.len() - i,
        {
            proof {
                assert(self.entities@.take(i + 1).drop_last() =~= self.entities@.take(i as int));
                assert(self.entities@.take(i + 1).last() == self.entities@[i as int]);
            }
            let e = self.entities[i];
            if e.tag.state != tag.state {
                kept.push(e);
                proof {
                    assert(kept@ =~= without_tag(self.entities@.take(i as int), tag) + seq![e]);
                }
            } else {
                proof {
                    assert(kept@ =~= without_tag(self.entities@.take(i as int), tag)
                        + Seq::<Entity>::empty());
                }
            }
            i = i + 1;
        }
        proof {
            assert(self.entities@.take(self.entities@.len() as int) =~= self.entities@);
        }
        self.entities = kept;
        proof {
            if nodup(ids_of(old(self).entities@)) {
                lemma_without_tag_nodup(old(self).entities@, tag);
            }
        }
    }
}

/// Removing a tag's entities keeps identifiers duplicate-free.
pub proof fn lemma_without_tag_nodup(entities: Seq<Entity>, tag: ScreenTag)
    requires
        nodup(ids_of(entities)),
    ensures
        nodup(ids_of(without_tag(entities, tag))),
    decreases entities.len(),
{
    if entities.len() > 0 {
        assert(nodup(ids_of(entities.drop_last()))) by {
            assert(ids_of(entities.drop_last()) =~= ids_of(entities).drop_last());
            assert(forall|i: int|
                0 <= i < ids_of(entities).drop_last().len() ==> ids_of(entities).drop_last()[i]
                    == ids_of(entities)[i]);
        }
        lemma_without_tag_nodup(entities.drop_last(), tag);
        let rest = without_tag(entities.drop_last(), tag);
        if entities.last().tag == tag {
            assert(without_tag(entities, tag) =~= rest);
        } else {
            assert(without_tag(entities, tag) =~= rest.push(entities.last()));
            assert(ids_of(rest.push(entities.last())) =~= ids_of(rest).push(entities.last().id));
            assert(!ids_of(rest).contains(entities.last().id)) by {
                if ids_of(rest).contains(entities.last().id) {
                    let i = choose|i: int|
                        0 <= i < ids_of(rest).len() && ids_of(rest)[i] == entities.last().id;
                    lemma_without_tag_membership(entities.drop_last(), tag, rest[i]);
                    let j = choose|j: int|
                        0 <= j < entities.drop_last().len() && entities.drop_last()[j] == rest[i];
                    assert(ids_of(entities)[j] == entities.last().id);
                    assert(ids_of(entities)[entities.len() - 1] == entities.last().id);
                }
            }
            assert forall|i: int, j: int|
                0 <= i < j < ids_of(without_tag(entities, tag)).len() implies ids_of(
                without_tag(entities, tag),
            )[i] != ids_of(without_tag(entities, tag))[j] by {
                if j < ids_of(rest).len() {
                    assert(ids_of(without_tag(entities, tag))[i] == ids_of(rest)[i]);
                    assert(ids_of(without_tag(entities, tag))[j] == ids_of(rest)[j]);
                } else {
                    assert(ids_of(without_tag(entities, tag))[i] == ids_of(rest)[i]);
                    assert(ids_of(rest).contains(ids_of(rest)[i]));
                }
            }
        }
    }
}

/// Remove every entity carrying `tag` from the world.
///
/// The bulk cleanup operation an exit hook uses; any screen's exit hook
/// may call it with that screen's tag.
pub fn despawn_screen(world: &mut World, tag: ScreenTag)
    ensures
        final(world).entities@ == without_tag(old(world).entities@, tag),
        old(world).wf() ==> final(world).wf(),
{
    world.despawn_all_tagged(tag);
}

} // verus!
