//! Setting up a scene: participants at random places within the viewport.
//!
//! The viewport is centred on the origin, so along an axis of extent `e` it
//! runs from `-(e / 2)` to `e / 2`. A participant is placed at a random draw,
//! moved down by a quarter of the extent. Draws are taken from zero up to
//! and including three quarters of the extent and no further, so that the
//! coordinate runs from a quarter of the extent below the origin up to the
//! edge of the viewport. A viewport without extent leaves one draw, zero,
//! and one place, the origin of that axis.

use vstd::prelude::*;
use rand::Rng;
use crate::store::{well_formed, Entity, EntityId, EntityStore};
use crate::vector::Position;

verus! {

/// How far a draw is moved down along an axis of the given extent.
pub open spec fn spawn_offset(extent: i32) -> int {
    if extent > 0 {
        extent / 4
    } else {
        0
    }
}

/// The bound below which the draws for an axis of the given extent lie: the
/// largest draw is the one that lands on the edge of the viewport.
pub open spec fn draw_bound(extent: i32) -> int {
    if extent > 0 {
        extent / 2 + extent / 4 + 1
    } else {
        1
    }
}

/// Whether `draw` is a draw for an axis of the given extent.
pub open spec fn valid_draw(draw: i32, extent: i32) -> bool {
    0 <= draw < draw_bound(extent)
}

/// Whether each of `draws` is a pair of draws for a viewport of `width` by
/// `height`.
pub open spec fn valid_draws(draws: Seq<(i32, i32)>, width: i32, height: i32) -> bool {
    forall|k: int|
        0 <= k < draws.len() ==> valid_draw((#[trigger] draws[k]).0, width) && valid_draw(
            draws[k].1,
            height,
        )
}

/// Whether the coordinate `c` lies within a viewport of the given extent
/// along that axis.
pub open spec fn in_viewport_range(c: i32, extent: i32) -> bool {
    if extent > 0 {
        -(extent / 2) <= c <= extent / 2
    } else {
        c == 0
    }
}

/// Whether `p` lies within a viewport of `width` by `height` around the
/// origin.
pub open spec fn in_viewport(p: Position, width: i32, height: i32) -> bool {
    in_viewport_range(p.x, width) && in_viewport_range(p.y, height)
}

/// Whether a scene over a viewport of the given extent may place a
/// participant at the coordinate `c` of that axis.
pub open spec fn in_spawn_range(c: i32, extent: i32) -> bool {
    if extent > 0 {
        -(extent / 4) <= c <= extent / 2
    } else {
        c == 0
    }
}

/// Whether a scene over a viewport of `width` by `height` may place a
/// participant at `p`.
pub open spec fn in_spawn_area(p: Position, width: i32, height: i32) -> bool {
    in_spawn_range(p.x, width) && in_spawn_range(p.y, height)
}

/// The place that a pair of draws stands for in a viewport of `width` by
/// `height`.
pub open spec fn placed(draw: (i32, i32), width: i32, height: i32) -> Position {
    Position {
        x: (draw.0 - spawn_offset(width)) as i32,
        y: (draw.1 - spawn_offset(height)) as i32,
    }
}

/// A participant of a fresh scene: at `position`, with no timer and no owner.
pub open spec fn scene_participant(position: Position) -> Entity {
    Entity { position, participant: true, lifetime: None, parent: None }
}

/// The participants of a scene, one for each pair of draws and in their
/// order.
pub open spec fn scene_entities(draws: Seq<(i32, i32)>, width: i32, height: i32) -> Seq<
    Option<Entity>,
> {
    Seq::new(draws.len(), |k: int| Some(scene_participant(placed(draws[k], width, height))))
}

/// Every place that a scene can give a participant lies within the
/// viewport, and every valid draw stands for such a place.
pub proof fn lemma_placed_in_viewport(draw: (i32, i32), width: i32, height: i32)
    requires
        valid_draw(draw.0, width),
        valid_draw(draw.1, height),
    ensures
        in_spawn_area(placed(draw, width, height), width, height),
        in_viewport(placed(draw, width, height), width, height),
        placed(draw, width, height).x == draw.0 - spawn_offset(width),
        placed(draw, width, height).y == draw.1 - spawn_offset(height),
{
}

/// Draws a whole number from zero up to, but not including, `bound` with
/// `Rng::gen_range` on the generator that `rand::thread_rng` hands out.
///
/// The contract claims only the range, which is what rand documents for a
/// half-open range; which number comes out is left open. An empty range
/// would make `gen_range` panic, so `bound` has to be positive.
#[verifier::external_body]
fn random_below(bound: i32) -> (draw: i32)
    requires
        bound > 0,
    ensures
        0 <= draw < bound,
{
    rand::thread_rng().gen_range(0..bound)
}

/// The bound below which the draws for an axis of the given extent lie.
pub fn draw_limit(extent: i32) -> (bound: i32)
    ensures
        bound == draw_bound(extent),
        bound > 0,
{
    if extent > 0 {
        extent / 2 + extent / 4 + 1
    } else {
        1
    }
}

/// The coordinate that the draw `draw` stands for along an axis of the
/// given extent.
pub fn scene_coordinate(draw: i32, extent: i32) -> (c: i32)
    requires
        valid_draw(draw, extent),
    ensures
        c == draw - spawn_offset(extent),
        in_spawn_range(c, extent),
        in_viewport_range(c, extent),
{
    if extent > 0 {
        draw - extent / 4
    } else {
        draw
    }
}

/// The place that a pair of draws stands for in a viewport of `width` by
/// `height`.
pub fn place(draw: (i32, i32), width: i32, height: i32) -> (p: Position)
    requires
        valid_draw(draw.0, width),
        valid_draw(draw.1, height),
    ensures
        p == placed(draw, width, height),
        in_spawn_area(p, width, height),
        in_viewport(p, width, height),
{
    Position { x: scene_coordinate(draw.0, width), y: scene_coordinate(draw.1, height) }
}

/// Picks a random coordinate for a participant along an axis of the given
/// extent.
pub fn random_coordinate(extent: i32) -> (c: i32)
    ensures
        in_spawn_range(c, extent),
        in_viewport_range(c, extent),
{
    scene_coordinate(random_below(draw_limit(extent)), extent)
}

/// Takes a pair of random draws for a viewport of `width` by `height`.
pub fn random_draw(width: i32, height: i32) -> (draw: (i32, i32))
    ensures
        valid_draw(draw.0, width),
        valid_draw(draw.1, height),
{
    (random_below(draw_limit(width)), random_below(draw_limit(height)))
}

/// Picks a random place for a participant of a scene over a viewport of
/// `width` by `height`.
pub fn random_position(width: i32, height: i32) -> (p: Position)
    ensures
        in_spawn_area(p, width, height),
        in_viewport(p, width, height),
{
    place(random_draw(width, height), width, height)
}

/// Adds a participant at `position`, with no timer and no owner, and
/// returns its name.
pub fn spawn_participant(store: &mut EntityStore, position: Position) -> (id: EntityId)
    ensures
        well_formed(final(store)@),
        id == old(store)@.len(),
        final(store)@ == old(store)@.push(Some(scene_participant(position))),
{
    let spawned = store.spawn(
        Entity { position, participant: true, lifetime: None, parent: None },
    );
    spawned.unwrap()
}

/// Sets up a scene from draws that were taken before: adds one participant
/// for each pair of `draws`, in their order and each at the place that its
/// own pair stands for, and returns their names. What was in the store
/// before stays as it was.
pub fn spawn_scene_from_draws(
    store: &mut EntityStore,
    width: i32,
    height: i32,
    draws: &Vec<(i32, i32)>,
) -> (ids: Vec<EntityId>)
    requires
        valid_draws(draws@, width, height),
    ensures
        well_formed(final(store)@),
        ids@.len() == draws@.len(),
        forall|k: int| 0 <= k < draws@.len() ==> #[trigger] ids@[k] == old(store)@.len() + k,
        final(store)@ == old(store)@ + scene_entities(draws@, width, height),
{
    let ghost before = store@;
    let first = store.len();
    let mut ids: Vec<EntityId> = Vec::new();
    let mut n: usize = 0;
    while n < draws.len()
        invariant
            n <= draws.len(),
            first == before.len(),
            ids.len() == n,
            valid_draws(draws@, width, height),
            well_formed(store@),
            forall|k: int| 0 <= k < n ==> #[trigger] ids@[k] == first + k,
            store@ == before + scene_entities(draws@.take(n as int), width, height),
        decreases draws.len() - n,
    {
        let draw = draws[n];
        let position = place(draw, width, height);
        let id = spawn_participant(store, position);
        ids.push(id);
        proof {
            assert(store@ =~= before + scene_entities(draws@.take(n + 1), width, height));
        }
        n += 1;
    }
    proof {
        assert(draws@.take(n as int) == draws@);
    }
    ids
}

/// Sets up the basic scene: takes `count` pairs of random draws and adds a
/// participant for each, as `spawn_scene_from_draws` does. Every one of
/// them lies within a viewport of `width` by `height`. Returns their names.
pub fn spawn_basic_scene(store: &mut EntityStore, width: i32, height: i32, count: usize) -> (ids:
    Vec<EntityId>)
    ensures
        well_formed(final(store)@),
        ids.len() == count,
        forall|k: int| 0 <= k < count ==> #[trigger] ids@[k] == old(store)@.len() + k,
        exists|draws: Seq<(i32, i32)>|
            draws.len() == count && #[trigger] valid_draws(draws, width, height) && final(store)@
                == old(store)@ + scene_entities(draws, width, height),
        final(store)@.len() == old(store)@.len() + count,
        final(store)@.take(old(store)@.len() as int) == old(store)@,
        forall|id: int|
            old(store)@.len() <= id < final(store)@.len() ==> match #[trigger] final(store)@[id] {
                Some(entity) => entity == scene_participant(entity.position) && in_spawn_area(
                    entity.position,
                    width,
                    height,
                ) && in_viewport(entity.position, width, height),
                None => false,
            },
{
    let mut draws: Vec<(i32, i32)> = Vec::new();
    let mut n: usize = 0;
    while n < count
        invariant
            n <= count,
            draws.len() == n,
            valid_draws(draws@, width, height),
        decreases count - n,
    {
        let draw = random_draw(width, height);
        draws.push(draw);
        n += 1;
    }
    let ids = spawn_scene_from_draws(store, width, height, &draws);
    proof {
        let first = old(store)@.len() as int;
        assert(store@.take(first) =~= old(store)@);
        assert forall|id: int| first <= id < store@.len() implies match #[trigger] store@[id] {
            Some(entity) => entity == scene_participant(entity.position) && in_spawn_area(
                entity.position,
                width,
                height,
            ) && in_viewport(entity.position, width, height),
            None => false,
        } by {
            let k = id - first;
            assert(store@[id] == scene_entities(draws@, width, height)[k]);
            lemma_placed_in_viewport(draws@[k], width, height);
        }
    }
    ids
}

} // verus!
