//! The entity store: every entity of a scene, with what each one carries.
//!
//! An entity has a position, may take part in the pairwise force, may carry
//! a timer after which it is removed, and may be owned by another entity.
//! Ownership forms a forest: an owner is spawned before what it owns, and
//! removing an entity removes everything that it owns, however indirectly.
//!
//! An entity is named by the number of its slot. Slots are handed out in
//! order and never used twice, so a name stays free once its entity is gone.

use vstd::prelude::*;
use crate::force::{net_force, net_force_on};
use crate::lifetime::Lifetime;
use crate::vector::{displaced, Position};

verus! {

/// The name of an entity: the number of its slot in the store.
pub type EntityId = usize;

/// What the store keeps for one entity.
#[derive(Clone, Copy, Debug, PartialEq, Eq)]
pub struct Entity {
    /// Where the entity is.
    pub position: Position,
    /// Whether the pairwise force acts on it and comes from it.
    pub participant: bool,
    /// The timer after which it is removed, if it has one.
    pub lifetime: Option<Lifetime>,
    /// The entity that owns it, if any.
    pub parent: Option<EntityId>,
}

/// All entities of a scene.
pub struct EntityStore {
    slots: Vec<Option<Entity>>,
}

impl View for EntityStore {
    type V = Seq<Option<Entity>>;

    /// The slots in order; a slot holds `None` once its entity is removed.
    closed spec fn view(&self) -> Seq<Option<Entity>> {
        self.slots@
    }
}

/// Whether `id` names an entity that is in the store.
pub open spec fn alive(s: Seq<Option<Entity>>, id: int) -> bool {
    0 <= id < s.len() && s[id] is Some
}

/// Every owner is in the store and was spawned before what it owns.
pub open spec fn well_formed(s: Seq<Option<Entity>>) -> bool {
    forall|id: int| #[trigger]
        alive(s, id) ==> match s[id].unwrap().parent {
            Some(p) => p < id && alive(s, p as int),
            None => true,
        }
}

/// Whether `id` is `root` or is owned by it, directly or through other
/// entities.
pub open spec fn descends_from(s: Seq<Option<Entity>>, id: int, root: int) -> bool
    decreases id,
{
    alive(s, id) && (id == root || match s[id].unwrap().parent {
        Some(p) => p < id && descends_from(s, p as int, root),
        None => false,
    })
}

/// The store without `root` and without everything that `root` owns.
pub open spec fn despawned(s: Seq<Option<Entity>>, root: int) -> Seq<Option<Entity>> {
    Seq::new(
        s.len(),
        |i: int|
            if descends_from(s, i, root) {
                None
            } else {
                s[i]
            },
    )
}

/// Whether a tick of `delta` removes `id`: its own timer runs out on that
/// tick, or the tick removes its owner.
pub open spec fn expires(s: Seq<Option<Entity>>, id: int, delta: u64) -> bool
    decreases id,
{
    alive(s, id) && ((match s[id].unwrap().lifetime {
        Some(lifetime) => lifetime.expires_on(delta),
        None => false,
    }) || (match s[id].unwrap().parent {
        Some(p) => p < id && expires(s, p as int, delta),
        None => false,
    }))
}

/// `entity` with its timer, if it has one, advanced by `delta`.
pub open spec fn ticked_entity(entity: Entity, delta: u64) -> Entity {
    Entity {
        lifetime: match entity.lifetime {
            Some(lifetime) => Some(lifetime.ticked(delta)),
            None => None,
        },
        ..entity
    }
}

/// The store after a tick of `delta`: what the tick removes is gone, and
/// every timer that is left has advanced.
pub open spec fn lifetime_stepped(s: Seq<Option<Entity>>, delta: u64) -> Seq<Option<Entity>> {
    Seq::new(
        s.len(),
        |i: int|
            if expires(s, i, delta) {
                None
            } else {
                match s[i] {
                    Some(entity) => Some(ticked_entity(entity, delta)),
                    None => None,
                }
            },
    )
}

/// Whether `id` names an entity of the store that takes part in the force.
pub open spec fn is_participant(s: Seq<Option<Entity>>, id: int) -> bool {
    alive(s, id) && s[id].unwrap().participant
}

/// The positions of the participants, in the order of their names.
pub open spec fn participant_positions(s: Seq<Option<Entity>>) -> Seq<Position>
    decreases s.len(),
{
    if s.len() == 0 {
        Seq::empty()
    } else {
        let before = participant_positions(s.drop_last());
        match s.last() {
            Some(entity) => if entity.participant {
                before.push(entity.position)
            } else {
                before
            },
            None => before,
        }
    }
}

/// The store after one step of the pairwise force: every participant is
/// moved by the sum of the forces of all participants, taken from the
/// positions before the step. Nothing else changes.
pub open spec fn force_stepped(s: Seq<Option<Entity>>, g: int) -> Seq<Option<Entity>> {
    Seq::new(
        s.len(),
        |i: int|
            if is_participant(s, i) {
                let entity = s[i].unwrap();
                Some(
                    Entity {
                        position: displaced(
                            entity.position,
                            net_force(entity.position, participant_positions(s), g),
                        ),
                        ..entity
                    },
                )
            } else {
                s[i]
            },
    )
}

impl EntityStore {
    /// Every owner is in the store and was spawned before what it owns.
    #[verifier::type_invariant]
    spec fn owners_present(self) -> bool {
        well_formed(self.slots@)
    }

    /// A store with no entities.
    pub fn new() -> (store: EntityStore)
        ensures
            store@.len() == 0,
            well_formed(store@),
    {
        EntityStore { slots: Vec::new() }
    }

    /// Takes the slots out to work on them and leaves an empty store behind.
    fn take_slots(&mut self) -> (slots: Vec<Option<Entity>>)
        ensures
            slots@ == old(self)@,
            well_formed(slots@),
            final(self)@.len() == 0,
    {
        proof {
            use_type_invariant(&*self);
        }
        let mut slots: Vec<Option<Entity>> = Vec::new();
        std::mem::swap(&mut self.slots, &mut slots);
        slots
    }

    /// Adds `entity` and returns its name, the next free slot. An entity
    /// whose owner is not in the store is not added.
    pub fn spawn(&mut self, entity: Entity) -> (id: Option<EntityId>)
        ensures
            well_formed(final(self)@),
            id is None <==> entity.parent is Some && !alive(
                old(self)@,
                entity.parent.unwrap() as int,
            ),
            id is None ==> final(self)@ == old(self)@,
            id is Some ==> id.unwrap() == old(self)@.len() && final(self)@ == old(self)@.push(
                Some(entity),
            ),
    {
        proof {
            use_type_invariant(&*self);
        }
        match entity.parent {
            Some(p) => {
                if !self.is_alive(p) {
                    return None;
                }
            },
            None => {},
        }
        let mut slots = self.take_slots();
        let id = slots.len();
        slots.push(Some(entity));
        proof {
            let s = slots@;
            assert forall|k: int| #[trigger] alive(s, k) implies match s[k].unwrap().parent {
                Some(p) => p < k && alive(s, p as int),
                None => true,
            } by {
                if k < id {
                    assert(alive(old(self)@, k));
                }
            }
        }
        self.slots = slots;
        Some(id)
    }

    /// How many slots have been handed out, removed entities included.
    pub fn len(&self) -> (n: usize)
        ensures
            n == self@.len(),
            well_formed(self@),
    {
        proof {
            use_type_invariant(self);
        }
        self.slots.len()
    }

    /// Whether `id` names an entity that is in the store.
    pub fn is_alive(&self, id: EntityId) -> (present: bool)
        ensures
            present == alive(self@, id as int),
            well_formed(self@),
    {
        proof {
            use_type_invariant(self);
        }
        id < self.slots.len() && self.slots[id].is_some()
    }

    /// What the store keeps for `id`, if that entity is in the store.
    pub fn get(&self, id: EntityId) -> (entity: Option<Entity>)
        ensures
            entity == if alive(self@, id as int) {
                self@[id as int]
            } else {
                None
            },
            well_formed(self@),
    {
        proof {
            use_type_invariant(self);
        }
        if id < self.slots.len() {
            self.slots[id]
        } else {
            None
        }
    }

    /// Moves the entity `id` to `position` and says whether there was such
    /// an entity.
    pub fn set_position(&mut self, id: EntityId, position: Position) -> (present: bool)
        ensures
            well_formed(final(self)@),
            present == alive(old(self)@, id as int),
            !present ==> final(self)@ == old(self)@,
            present ==> final(self)@ == old(self)@.update(
                id as int,
                Some(Entity { position, ..old(self)@[id as int].unwrap() }),
            ),
    {
        match self.get(id) {
            Some(entity) => {
                let mut slots = self.take_slots();
                slots.set(id, Some(Entity { position, ..entity }));
                proof {
                    let s = slots@;
                    assert forall|k: int| #[trigger] alive(s, k) implies match s[k].unwrap().parent {
                        Some(p) => p < k && alive(s, p as int),
                        None => true,
                    } by {
                        assert(alive(old(self)@, k));
                    }
                }
                self.slots = slots;
                true
            },
            None => false,
        }
    }

    /// Removes `root` and everything that it owns. Nothing happens if `root`
    /// is not in the store.
    pub fn despawn_recursive(&mut self, root: EntityId)
        ensures
            well_formed(final(self)@),
            final(self)@ == despawned(old(self)@, root as int),
    {
        let ghost before = self@;
        let mut slots = self.take_slots();
        let mut i: usize = 0;
        while i < slots.len()
            invariant
                i <= slots.len(),
                slots.len() == before.len(),
                well_formed(before),
                forall|k: int| 0 <= k < i ==> slots@[k] == #[trigger] despawned(before, root as int)[k],
                forall|k: int| i <= k < before.len() ==> slots@[k] == before[k],
            decreases slots.len() - i,
        {
            let doomed = match slots[i] {
                Some(entity) => i == root || match entity.parent {
                    Some(p) => p < i && slots[p].is_none(),
                    None => false,
                },
                None => false,
            };
            proof {
                if alive(before, i as int) {
                    match before[i as int].unwrap().parent {
                        Some(p) => {
                            assert(alive(before, p as int));
                            assert(slots@[p as int] == despawned(before, root as int)[p as int]);
                        },
                        None => {},
                    }
                }
                assert(doomed == descends_from(before, i as int, root as int));
            }
            if doomed {
                slots.set(i, None);
            }
            i += 1;
        }
        proof {
            assert(slots@ =~= despawned(before, root as int));
            lemma_despawned_well_formed(before, root as int);
        }
        self.slots = slots;
    }

    /// Advances every timer by `delta` nanoseconds and removes each entity
    /// whose timer runs out on this tick, with everything that it owns.
    /// Returns the names of the removed entities in rising order.
    pub fn lifetime_step(&mut self, delta: u64) -> (removed: Vec<EntityId>)
        ensures
            well_formed(final(self)@),
            final(self)@ == lifetime_stepped(old(self)@, delta),
            forall|id: EntityId| removed@.contains(id) <==> expires(old(self)@, id as int, delta),
            forall|j: int, k: int| 0 <= j < k < removed.len() ==> removed@[j] < removed@[k],
    {
        let ghost before = self@;
        let mut slots = self.take_slots();
        let mut removed: Vec<EntityId> = Vec::new();
        let mut i: usize = 0;
        while i < slots.len()
            invariant
                i <= slots.len(),
                slots.len() == before.len(),
                well_formed(before),
                forall|k: int| 0 <= k < i ==> slots@[k] == #[trigger] lifetime_stepped(before, delta)[k],
                forall|k: int| i <= k < before.len() ==> slots@[k] == before[k],
                forall|k: int| 0 <= k < removed.len() ==> removed@[k] < i && expires(
                    before,
                    #[trigger] removed@[k] as int,
                    delta,
                ),
                forall|id: EntityId| id < i && #[trigger] expires(before, id as int, delta)
                    ==> removed@.contains(id),
                forall|j: int, k: int| 0 <= j < k < removed.len() ==> removed@[j] < removed@[k],
            decreases slots.len() - i,
        {
            match slots[i] {
                Some(entity) => {
                    let mut entity = entity;
                    let ran_out = match entity.lifetime {
                        Some(lifetime) => {
                            let mut lifetime = lifetime;
                            let just_finished = lifetime.tick(delta);
                            entity.lifetime = Some(lifetime);
                            just_finished
                        },
                        None => false,
                    };
                    let owner_gone = match entity.parent {
                        Some(p) => p < i && slots[p].is_none(),
                        None => false,
                    };
                    proof {
                        assert(alive(before, i as int));
                        match before[i as int].unwrap().parent {
                            Some(p) => {
                                assert(alive(before, p as int));
                                assert(slots@[p as int] == lifetime_stepped(before, delta)[p as int]);
                            },
                            None => {},
                        }
                        assert((ran_out || owner_gone) == expires(before, i as int, delta));
                        assert(entity == ticked_entity(before[i as int].unwrap(), delta));
                    }
                    if ran_out || owner_gone {
                        let ghost earlier = removed@;
                        slots.set(i, None);
                        removed.push(i);
                        proof {
                            assert(removed@[earlier.len() as int] == i);
                            assert forall|id: EntityId| id < i + 1 && #[trigger] expires(
                                before,
                                id as int,
                                delta,
                            ) implies removed@.contains(id) by {
                                if id < i {
                                    let k = choose|k: int| 0 <= k < earlier.len() && earlier[k] == id;
                                    assert(removed@[k] == id);
                                }
                            }
                        }
                    } else {
                        slots.set(i, Some(entity));
                    }
                },
                None => {
                    assert(!alive(before, i as int));
                },
            }
            i += 1;
        }
        proof {
            assert(slots@ =~= lifetime_stepped(before, delta));
            lemma_lifetime_stepped_well_formed(before, delta);
            assert forall|id: EntityId| removed@.contains(id) <==> expires(
                before,
                id as int,
                delta,
            ) by {
                if removed@.contains(id) {
                    let k = choose|k: int| 0 <= k < removed.len() && removed@[k] == id;
                    assert(expires(before, removed@[k] as int, delta));
                }
                if expires(before, id as int, delta) {
                    assert(alive(before, id as int));
                }
            }
        }
        self.slots = slots;
        removed
    }

    /// The names of the participants, in rising order.
    pub fn participants(&self) -> (ids: Vec<EntityId>)
        ensures
            forall|id: EntityId| ids@.contains(id) <==> is_participant(self@, id as int),
            forall|j: int, k: int| 0 <= j < k < ids.len() ==> ids@[j] < ids@[k],
    {
        let mut ids: Vec<EntityId> = Vec::new();
        let mut i: usize = 0;
        while i < self.slots.len()
            invariant
                i <= self.slots.len(),
                forall|k: int| 0 <= k < ids.len() ==> ids@[k] < i && is_participant(
                    self.slots@,
                    #[trigger] ids@[k] as int,
                ),
                forall|id: EntityId| id < i && #[trigger] is_participant(self.slots@, id as int)
                    ==> ids@.contains(id),
                forall|j: int, k: int| 0 <= j < k < ids.len() ==> ids@[j] < ids@[k],
            decreases self.slots.len() - i,
        {
            let takes_part = match self.slots[i] {
                Some(entity) => entity.participant,
                None => false,
            };
            if takes_part {
                let ghost earlier = ids@;
                ids.push(i);
                proof {
                    assert(ids@[earlier.len() as int] == i);
                    assert forall|id: EntityId| id < i + 1 && #[trigger] is_participant(
                        self.slots@,
                        id as int,
                    ) implies ids@.contains(id) by {
                        if id < i {
                            let k = choose|k: int| 0 <= k < earlier.len() && earlier[k] == id;
                            assert(ids@[k] == id);
                        }
                    }
                }
            }
            i += 1;
        }
        proof {
            assert forall|id: EntityId| ids@.contains(id) <==> is_participant(
                self@,
                id as int,
            ) by {
                if ids@.contains(id) {
                    let k = choose|k: int| 0 <= k < ids.len() && ids@[k] == id;
                    assert(is_participant(self.slots@, ids@[k] as int));
                }
            }
        }
        ids
    }

    /// The positions of the participants, in the order of their names.
    pub fn positions_of_participants(&self) -> (positions: Vec<Position>)
        ensures
            positions@ == participant_positions(self@),
    {
        let mut positions: Vec<Position> = Vec::new();
        let mut i: usize = 0;
        while i < self.slots.len()
            invariant
                i <= self.slots.len(),
                positions@ == participant_positions(self.slots@.take(i as int)),
            decreases self.slots.len() - i,
        {
            proof {
                assert(self.slots@.take(i + 1).drop_last() == self.slots@.take(i as int));
            }
            match self.slots[i] {
                Some(entity) => {
                    if entity.participant {
                        positions.push(entity.position);
                    }
                },
                None => {},
            }
            i += 1;
        }
        assert(self.slots@.take(i as int) == self.slots@);
        positions
    }

    /// Runs one step of the pairwise force on the participants of the store.
    pub fn pairwise_force_step(&mut self, g: i32)
        ensures
            well_formed(final(self)@),
            final(self)@ == force_stepped(old(self)@, g as int),
    {
        let ghost before = self@;
        let others = self.positions_of_participants();
        let mut slots = self.take_slots();
        let mut i: usize = 0;
        while i < slots.len()
            invariant
                i <= slots.len(),
                slots.len() == before.len(),
                others@ == participant_positions(before),
                forall|k: int| 0 <= k < i ==> slots@[k] == #[trigger] force_stepped(before, g as int)[k],
                forall|k: int| i <= k < before.len() ==> slots@[k] == before[k],
            decreases slots.len() - i,
        {
            match slots[i] {
                Some(entity) => {
                    if entity.participant {
                        let f = net_force_on(entity.position, &others, g);
                        let moved = Entity { position: entity.position.displace(f), ..entity };
                        slots.set(i, Some(moved));
                    }
                },
                None => {},
            }
            i += 1;
        }
        proof {
            assert(slots@ =~= force_stepped(before, g as int));
            lemma_force_stepped_well_formed(before, g as int);
        }
        self.slots = slots;
    }
}

/// Removing an entity with all that it owns leaves no entity without its
/// owner.
pub proof fn lemma_despawned_well_formed(s: Seq<Option<Entity>>, root: int)
    requires
        well_formed(s),
    ensures
        well_formed(despawned(s, root)),
{
    let t = despawned(s, root);
    assert forall|id: int| #[trigger] alive(t, id) implies match t[id].unwrap().parent {
        Some(p) => p < id && alive(t, p as int),
        None => true,
    } by {
        assert(alive(s, id));
        assert(!descends_from(s, id, root));
    }
}

/// A tick leaves no entity without its owner.
pub proof fn lemma_lifetime_stepped_well_formed(s: Seq<Option<Entity>>, delta: u64)
    requires
        well_formed(s),
    ensures
        well_formed(lifetime_stepped(s, delta)),
{
    let t = lifetime_stepped(s, delta);
    assert forall|id: int| #[trigger] alive(t, id) implies match t[id].unwrap().parent {
        Some(p) => p < id && alive(t, p as int),
        None => true,
    } by {
        assert(alive(s, id));
        assert(!expires(s, id, delta));
    }
}

/// A step of the force removes nothing and changes no owner.
pub proof fn lemma_force_stepped_well_formed(s: Seq<Option<Entity>>, g: int)
    requires
        well_formed(s),
    ensures
        well_formed(force_stepped(s, g)),
{
    let t = force_stepped(s, g);
    assert forall|id: int| #[trigger] alive(t, id) implies match t[id].unwrap().parent {
        Some(p) => p < id && alive(t, p as int),
        None => true,
    } by {
        assert(alive(s, id));
        match s[id].unwrap().parent {
            Some(p) => {
                assert(alive(s, p as int));
            },
            None => {},
        }
    }
}

/// Whatever descends from `root` was spawned no earlier than `root`, and
/// only while `root` itself is in the store.
pub proof fn lemma_descends_reaches_root(s: Seq<Option<Entity>>, id: int, root: int)
    requires
        descends_from(s, id, root),
    ensures
        alive(s, root),
        root <= id,
    decreases id,
{
    if id != root {
        lemma_descends_reaches_root(s, s[id].unwrap().parent.unwrap() as int, root);
    }
}

/// Removing an entity that is not in the store changes nothing.
pub proof fn lemma_despawn_absent_is_noop(s: Seq<Option<Entity>>, root: int)
    requires
        !alive(s, root),
    ensures
        despawned(s, root) == s,
{
    assert forall|i: int| 0 <= i < s.len() implies !descends_from(s, i, root) by {
        if descends_from(s, i, root) {
            lemma_descends_reaches_root(s, i, root);
        }
    }
    assert(despawned(s, root) =~= s);
}

/// Removing an entity a second time changes nothing: after the first time
/// it is no longer in the store.
pub proof fn lemma_despawn_idempotent(s: Seq<Option<Entity>>, root: int)
    ensures
        !alive(despawned(s, root), root),
        despawned(despawned(s, root), root) == despawned(s, root),
{
    if alive(s, root) {
        assert(descends_from(s, root, root));
    }
    lemma_despawn_absent_is_noop(despawned(s, root), root);
}

/// A tick does nothing to an entity that is not in the store: it does not
/// remove it again and it does not bring it back.
pub proof fn lemma_tick_skips_removed(s: Seq<Option<Entity>>, id: int, delta: u64)
    requires
        !alive(s, id),
    ensures
        !expires(s, id, delta),
        !alive(lifetime_stepped(s, delta), id),
{
}

/// An entity is removed once: what one tick removes, no later tick finds.
pub proof fn lemma_removed_once(s: Seq<Option<Entity>>, id: int, first: u64, second: u64)
    requires
        expires(s, id, first),
    ensures
        !alive(lifetime_stepped(s, first), id),
        !expires(lifetime_stepped(s, first), id, second),
{
}

/// A tick removes an entity exactly when its own timer or the timer of one
/// of its owners runs out on that tick; every other entity stays, with its
/// timer advanced.
pub proof fn lemma_tick_keeps_the_rest(s: Seq<Option<Entity>>, id: int, delta: u64)
    requires
        alive(s, id),
        !expires(s, id, delta),
    ensures
        alive(lifetime_stepped(s, delta), id),
        lifetime_stepped(s, delta)[id] == Some(ticked_entity(s[id].unwrap(), delta)),
{
}

} // verus!
