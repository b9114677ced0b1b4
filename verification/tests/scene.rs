use lifeforms::scene::{
    draw_limit, place, random_coordinate, random_draw, random_position, scene_coordinate,
    spawn_basic_scene, spawn_participant, spawn_scene_from_draws,
};
use lifeforms::store::{Entity, EntityStore};
use lifeforms::vector::Position;

const WIDTH: i32 = 1_280_000;
const HEIGHT: i32 = 720_000;
const G: i32 = 1000;

fn lifeform(x: i32, y: i32) -> Entity {
    Entity { position: Position { x, y }, participant: true, lifetime: None, parent: None }
}

#[test]
fn draw_limit_is_one_past_three_quarters_of_the_extent() {
    assert_eq!(draw_limit(1280), 961);
    assert_eq!(draw_limit(720), 541);
    assert_eq!(draw_limit(1), 1);
    assert_eq!(draw_limit(2), 2);
    assert_eq!(draw_limit(3), 2);
    assert_eq!(draw_limit(4), 4);
    assert_eq!(draw_limit(i32::MAX), 1_610_612_735);
}

#[test]
fn draw_limit_without_extent_leaves_one_draw() {
    for extent in [0, -1, -1280, i32::MIN] {
        assert_eq!(draw_limit(extent), 1);
    }
}

#[test]
fn scene_coordinate_moves_the_draw_down_by_a_quarter() {
    assert_eq!(scene_coordinate(0, 1280), -320);
    assert_eq!(scene_coordinate(320, 1280), 0);
    assert_eq!(scene_coordinate(959, 1280), 639);
    assert_eq!(scene_coordinate(0, 720), -180);
    assert_eq!(scene_coordinate(0, 1), 0);
    assert_eq!(scene_coordinate(1, 3), 1);
    assert_eq!(scene_coordinate(0, i32::MAX), -536_870_911);
}

#[test]
fn scene_coordinate_of_the_largest_draw_is_the_edge_of_the_viewport() {
    for extent in [1, 2, 3, 4, 5, 720, 1280, WIDTH, HEIGHT, i32::MAX] {
        assert_eq!(scene_coordinate(draw_limit(extent) - 1, extent), extent / 2);
    }
    assert_eq!(scene_coordinate(960, 1280), 640);
    assert_eq!(scene_coordinate(540, 720), 360);
}

#[test]
fn scene_coordinate_without_extent_is_the_origin() {
    for extent in [0, -1, -1280, i32::MIN] {
        assert_eq!(scene_coordinate(0, extent), 0);
    }
}

#[test]
fn place_treats_each_axis_by_its_own_extent() {
    assert_eq!(place((0, 0), 1280, 720), Position { x: -320, y: -180 });
    assert_eq!(place((960, 540), 1280, 720), Position { x: 640, y: 360 });
    assert_eq!(place((500, 100), 1280, 720), Position { x: 180, y: -80 });
    assert_eq!(place((0, 7), 0, 40), Position { x: 0, y: -3 });
}

#[test]
fn random_coordinate_stays_within_the_viewport() {
    for extent in [1, 2, 3, 4, 5, 8, 1280, 720, WIDTH, i32::MAX] {
        for _ in 0..200 {
            let c = random_coordinate(extent);
            assert!(-(extent / 4) <= c);
            assert!(c <= extent / 2);
        }
    }
}

#[test]
fn random_coordinate_without_extent_is_the_origin() {
    for extent in [0, -1, -1280, i32::MIN] {
        assert_eq!(random_coordinate(extent), 0);
    }
}

#[test]
fn random_coordinate_of_extent_one_is_the_only_place() {
    for _ in 0..50 {
        assert_eq!(random_coordinate(1), 0);
    }
}

#[test]
fn random_coordinate_varies() {
    let first = random_coordinate(i32::MAX);
    let mut varied = false;
    for _ in 0..100 {
        if random_coordinate(i32::MAX) != first {
            varied = true;
        }
    }
    assert!(varied);
}

#[test]
fn random_draw_lies_below_the_limit_of_each_axis() {
    for _ in 0..200 {
        let (x, y) = random_draw(1280, 720);
        assert!(0 <= x && x < 961);
        assert!(0 <= y && y < 541);
    }
    assert_eq!(random_draw(0, -5), (0, 0));
}

#[test]
fn random_position_lies_within_the_viewport() {
    for _ in 0..200 {
        let p = random_position(WIDTH, HEIGHT);
        assert!(-320_000 <= p.x && p.x <= 640_000);
        assert!(-180_000 <= p.y && p.y <= 360_000);
    }
    for _ in 0..200 {
        let p = random_position(1280, 720);
        assert!(-640 <= p.x && p.x <= 640);
        assert!(-360 <= p.y && p.y <= 360);
    }
}

#[test]
fn spawn_participant_adds_a_lifeform() {
    let mut store = EntityStore::new();
    let p = Position { x: 4, y: -4 };
    assert_eq!(spawn_participant(&mut store, p), 0);
    assert_eq!(spawn_participant(&mut store, p), 1);
    assert_eq!(store.len(), 2);
    assert_eq!(store.get(1), Some(lifeform(4, -4)));
}

#[test]
fn scene_from_draws_places_each_participant_by_its_own_draw() {
    let mut store = EntityStore::new();
    let draws = vec![(0, 0), (960, 540), (320, 180), (1, 2)];
    let ids = spawn_scene_from_draws(&mut store, 1280, 720, &draws);
    assert_eq!(ids, vec![0, 1, 2, 3]);
    assert_eq!(store.len(), 4);
    assert_eq!(store.get(0), Some(lifeform(-320, -180)));
    assert_eq!(store.get(1), Some(lifeform(640, 360)));
    assert_eq!(store.get(2), Some(lifeform(0, 0)));
    assert_eq!(store.get(3), Some(lifeform(-319, -178)));
}

#[test]
fn scene_from_draws_keeps_what_was_in_the_store() {
    let mut store = EntityStore::new();
    let old = Entity { position: Position { x: 1, y: 1 }, participant: false, lifetime: None, parent: None };
    store.spawn(old);
    store.spawn(old);
    store.despawn_recursive(0);
    let ids = spawn_scene_from_draws(&mut store, 8, 8, &vec![(6, 0), (0, 6)]);
    assert_eq!(ids, vec![2, 3]);
    assert_eq!(store.get(0), None);
    assert_eq!(store.get(1), Some(old));
    assert_eq!(store.get(2), Some(lifeform(4, -2)));
    assert_eq!(store.get(3), Some(lifeform(-2, 4)));
}

#[test]
fn scene_from_no_draws_adds_nothing() {
    let mut store = EntityStore::new();
    assert_eq!(spawn_scene_from_draws(&mut store, 1280, 720, &vec![]), Vec::<usize>::new());
    assert_eq!(store.len(), 0);
}

#[test]
fn scene_from_draws_without_extent_is_at_the_origin() {
    let mut store = EntityStore::new();
    spawn_scene_from_draws(&mut store, 0, -3, &vec![(0, 0), (0, 0)]);
    assert_eq!(store.get(0), Some(lifeform(0, 0)));
    assert_eq!(store.get(1), Some(lifeform(0, 0)));
}

#[test]
fn basic_scene_has_two_lifeforms_within_the_viewport() {
    for _ in 0..50 {
        let mut store = EntityStore::new();
        let ids = spawn_basic_scene(&mut store, 1280, 720, 2);
        assert_eq!(ids, vec![0, 1]);
        assert_eq!(store.len(), 2);
        for id in ids {
            let entity = store.get(id).unwrap();
            assert!(entity.participant);
            assert_eq!(entity.lifetime, None);
            assert_eq!(entity.parent, None);
            assert!(-640 <= entity.position.x && entity.position.x <= 640);
            assert!(-360 <= entity.position.y && entity.position.y <= 360);
            assert!(-320 <= entity.position.x);
            assert!(-180 <= entity.position.y);
        }
    }
}

#[test]
fn basic_scene_draws_for_each_participant_anew() {
    let mut store = EntityStore::new();
    let ids = spawn_basic_scene(&mut store, i32::MAX, i32::MAX, 50);
    let first = store.get(ids[0]).unwrap().position;
    let mut varied = false;
    for id in ids {
        if store.get(id).unwrap().position != first {
            varied = true;
        }
    }
    assert!(varied);
}

#[test]
fn basic_scene_keeps_what_was_in_the_store() {
    let mut store = EntityStore::new();
    let old = Entity { position: Position { x: 1, y: 1 }, participant: false, lifetime: None, parent: None };
    store.spawn(old);
    store.spawn(old);
    store.despawn_recursive(1);
    let ids = spawn_basic_scene(&mut store, WIDTH, HEIGHT, 3);
    assert_eq!(ids, vec![2, 3, 4]);
    assert_eq!(store.get(0), Some(old));
    assert_eq!(store.get(1), None);
    assert_eq!(store.len(), 5);
}

#[test]
fn basic_scene_of_none_adds_nothing() {
    let mut store = EntityStore::new();
    assert_eq!(spawn_basic_scene(&mut store, WIDTH, HEIGHT, 0), Vec::<usize>::new());
    assert_eq!(store.len(), 0);
}

#[test]
fn two_random_lifeforms_push_each_other_apart_by_opposite_amounts() {
    for _ in 0..100 {
        let mut store = EntityStore::new();
        let ids = spawn_basic_scene(&mut store, WIDTH, HEIGHT, 2);
        let a = store.get(ids[0]).unwrap().position;
        let b = store.get(ids[1]).unwrap().position;
        store.pairwise_force_step(G);
        let a_after = store.get(ids[0]).unwrap().position;
        let b_after = store.get(ids[1]).unwrap().position;
        if a == b {
            assert_eq!(a_after, a);
            assert_eq!(b_after, b);
        } else {
            assert_ne!(a_after, a);
            assert_ne!(b_after, b);
        }
        assert_eq!(a_after.x - a.x, -(b_after.x - b.x));
        assert_eq!(a_after.y - a.y, -(b_after.y - b.y));
    }
}
