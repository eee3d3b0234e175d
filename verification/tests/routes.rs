//! Finding the way, and finding things nearby.

use kingdom::chunk::{li, Chunk, Resource, Tile};
use kingdom::float::F32;
use kingdom::grid::{
    adjacent, contains, key, manhattan, near_any, neighbor, offset, shift, shift_back, within,
};
use kingdom::pathfind::{bfs, path_to};
use kingdom::rng::Rng;
use kingdom::survey::{
    adjacent_enemy_hut, adjacent_enemy_wall, adjacent_walkable, choose_wall_tile,
    find_land_anchor, nearest_house, neighbor_node, open_tiles_near, plantable_neighbor,
    stand_tile,
};
use kingdom::vec2::Vec2;
use kingdom::village::{cluster, village_center};
use kingdom::world::World;

fn f(v: f32) -> F32 {
    F32 { bits: v.to_bits() }
}

fn meadow() -> World {
    let mut chunks = Vec::new();
    for cy in -1..=1 {
        for cx in -1..=1 {
            chunks.push(((cx, cy), Chunk::blank()));
        }
    }
    World::from_saved(5, chunks)
}

#[test]
fn distances_and_neighbours() {
    assert_eq!(manhattan((0, 0), (3, -4)), 7);
    assert_eq!(manhattan((i32::MIN, 0), (i32::MAX, 0)), 4294967295);
    assert!(within((0, 0), (5, -5), 5));
    assert!(!within((0, 0), (6, 0), 5));
    assert!(near_any(&vec![(0, 0), (20, 20)], (18, 22), 2));
    assert!(!near_any(&vec![], (0, 0), 100));
    assert!(contains(&vec![(1, 2)], (1, 2)));
    assert!(!contains(&vec![(1, 2)], (2, 1)));
    assert!(adjacent((0, 0), (0, 1)));
    assert!(!adjacent((0, 0), (1, 1)));
    assert!(!adjacent((0, 0), (0, 0)));
    let all: Vec<(i32, i32)> = (0..8).map(|i| neighbor((0, 0), i).unwrap()).collect();
    assert_eq!(
        all,
        vec![(1, 0), (-1, 0), (0, 1), (0, -1), (1, 1), (-1, -1), (1, -1), (-1, 1)]
    );
    assert_eq!(neighbor((i32::MAX, 0), 0), None);
    assert_eq!(offset((1, 1), -3, 4), Some((-2, 5)));
    assert_eq!(offset((i32::MIN, 0), -1, 0), None);
    assert_eq!(shift(5, -7), -2);
    assert_eq!(shift(i32::MAX, 1), i32::MAX);
    assert_eq!(shift_back(5, 7), -2);
    assert_eq!(shift_back(0, i32::MIN), i32::MAX);
    assert_ne!(key((1, 2)), key((2, 1)));
    assert_ne!(key((-1, 0)), key((0, -1)));
}

#[test]
fn a_route_leads_straight_there() {
    let route = bfs((0, 0), 4000, |x, y| (x, y) == (3, 0), |_, _| true).unwrap();
    assert_eq!(route, vec![(1, 0), (2, 0), (3, 0)]);
}

#[test]
fn being_there_is_an_empty_route() {
    assert_eq!(bfs((2, 2), 0, |x, y| (x, y) == (2, 2), |_, _| false), Some(vec![]));
}

#[test]
fn a_goal_may_be_impassable() {
    let open = |x: i32, y: i32| !(x == 2 && y == 0);
    let route = bfs((0, 0), 4000, |x, y| (x, y) == (2, 0), open).unwrap();
    assert_eq!(route, vec![(1, 0), (2, 0)]);
}

#[test]
fn routes_go_round_obstacles_by_the_shortest_way() {
    // A wall at x == 1 from y == -3 to y == 2, with the gap at y == 3 nearest.
    let open = |x: i32, y: i32| !(x == 1 && (-5..=2).contains(&y)) && x.abs() < 9 && y.abs() < 9;
    let route = bfs((0, 0), 4000, |x, y| (x, y) == (2, 0), open).unwrap();
    assert_eq!(route.len(), 8);
    assert_eq!(*route.last().unwrap(), (2, 0));
    let mut at = (0, 0);
    for &step in &route {
        assert!(adjacent(at, step));
        assert!(open(step.0, step.1));
        at = step;
    }
}

#[test]
fn a_search_gives_up() {
    // Walled in.
    let inside = |x: i32, y: i32| x.abs() <= 1 && y.abs() <= 1;
    assert!(bfs((0, 0), 4000, |x, y| (x, y) == (9, 9), inside).is_none());
    // Out of budget: the nine tiles are more than eight.
    assert!(bfs((0, 0), 8, |x, y| (x, y) == (9, 9), |_, _| true).is_none());
    assert!(bfs((0, 0), 1, |x, y| (x, y) == (1, 0), |_, _| true).is_some());
    assert!(bfs((0, 0), 0, |x, y| (x, y) == (1, 0), |_, _| true).is_none());
}

#[test]
fn a_search_stops_at_the_edge_of_the_grid() {
    let route = bfs((i32::MAX, 0), 4000, |x, y| (x, y) == (i32::MAX, 2), |_, _| true).unwrap();
    assert_eq!(route, vec![(i32::MAX, 1), (i32::MAX, 2)]);
}

#[test]
fn paths_end_on_the_goal_or_next_to_it() {
    let mut w = meadow();
    assert_eq!(path_to(&w, 0, (0, 0), (2, 0), 4000), Some(vec![(1, 0), (2, 0)]));
    w.set_house(2, 0, true);
    assert_eq!(path_to(&w, 0, (0, 0), (2, 0), 4000), Some(vec![(1, 0)]));
    assert_eq!(path_to(&w, 0, (1, 0), (2, 0), 4000), Some(vec![]));
    assert_eq!(path_to(&w, 0, (2, 0), (2, 0), 4000), Some(vec![]));
    w.set_wall(1, 0, 1, f(1.0));
    assert!(path_to(&w, 0, (0, 0), (2, 0), 4000).unwrap().len() > 1);
    assert_eq!(path_to(&w, 1, (0, 0), (2, 0), 4000), Some(vec![(1, 0)]));
}

#[test]
fn places_to_stand_and_to_spawn() {
    let mut w = meadow();
    w.set_house(0, 0, true);
    assert_eq!(stand_tile(&w, 0, (0, 0)), Some((1, 0)));
    assert_eq!(adjacent_walkable(&w, 0, 0), Some((1, 0)));
    w.set_wall(1, 0, 0, f(1.0));
    assert_eq!(stand_tile(&w, 0, (0, 0)), Some((1, 0)));
    assert_eq!(stand_tile(&w, 1, (0, 0)), Some((-1, 0)));
    assert_eq!(adjacent_walkable(&w, 0, 0), Some((-1, 0)));
    for (x, y) in [(-1, 0), (0, 1), (0, -1), (1, 0)] {
        w.set_house(x, y, true);
    }
    assert_eq!(stand_tile(&w, 0, (0, 0)), None);
    assert_eq!(adjacent_walkable(&w, 0, 0), Some((1, 1)));
}

#[test]
fn things_next_door() {
    let mut w = meadow();
    w.set_node(0, 1, Resource::Stone, 5);
    w.set_node(0, -1, Resource::Wood, 5);
    assert_eq!(neighbor_node(&w, (0, 0), None), Some((0, 1)));
    assert_eq!(neighbor_node(&w, (0, 0), Some(Resource::Wood)), Some((0, -1)));
    assert_eq!(neighbor_node(&w, (5, 5), None), None);
    w.set_wall(1, 0, 1, f(1.0));
    w.set_hut(-1, 0, 1, f(1.0));
    assert_eq!(adjacent_enemy_wall(&w, 0, (0, 0)), Some((1, 0)));
    assert_eq!(adjacent_enemy_wall(&w, 1, (0, 0)), None);
    assert_eq!(adjacent_enemy_hut(&w, 0, (0, 0)), Some((-1, 0)));
    assert_eq!(adjacent_enemy_hut(&w, 1, (0, 0)), None);
}

#[test]
fn ground_to_sow() {
    let w = meadow();
    let home = vec![(0, 0)];
    assert_eq!(plantable_neighbor(&w, &home, 16, &vec![], (3, 3)), Some((4, 3)));
    assert_eq!(plantable_neighbor(&w, &home, 16, &vec![(4, 3)], (3, 3)), Some((2, 3)));
    assert_eq!(plantable_neighbor(&w, &home, 16, &vec![], (16, 0)), Some((15, 0)));
    assert_eq!(plantable_neighbor(&w, &home, 16, &vec![], (20, 0)), None);
}

#[test]
fn the_nearest_house_is_the_first_of_equals() {
    assert_eq!(nearest_house(&vec![(5, 0), (0, 4), (-4, 0)], (0, 0)), Some((0, 4)));
    assert_eq!(nearest_house(&vec![], (0, 0)), None);
}

#[test]
fn walls_go_up_in_rings() {
    let mut w = meadow();
    w.set_house(0, 0, true);
    assert_eq!(choose_wall_tile(&w, (0, 0)), Some((-1, -1)));
    for y in -1..=1 {
        for x in -1..=1 {
            w.set_cave(x, y, true);
        }
    }
    assert_eq!(choose_wall_tile(&w, (0, 0)), Some((-2, -2)));
    for y in -2..=2 {
        for x in -2..=2 {
            w.set_cave(x, y, true);
        }
    }
    assert_eq!(choose_wall_tile(&w, (0, 0)), None);
}

#[test]
fn squares_are_read_row_by_row() {
    let mut w = meadow();
    w.set_cave(0, 0, true);
    assert_eq!(
        open_tiles_near(&w, 0, 0, 1),
        vec![(-1, -1), (0, -1), (1, -1), (-1, 0), (1, 0), (-1, 1), (0, 1), (1, 1)]
    );
    assert!(open_tiles_near(&w, 0, 0, -1).is_empty());
    assert_eq!(open_tiles_near(&w, 1, 0, 0), vec![(1, 0)]);
}

#[test]
fn land_is_found_near_a_point() {
    let mut c = Chunk::blank();
    for y in 0..32 {
        for x in 0..32 {
            if (x, y) != (20, 10) && (x, y) != (10, 22) {
                c.tiles[li(x, y)] = Tile::Water;
            }
        }
    }
    let mut w = World::from_saved(1, vec![((0, 0), c)]);
    assert_eq!(find_land_anchor(&mut w, (16, 16), 8), Some((20, 10)));
    assert_eq!(find_land_anchor(&mut w, (16, 16), 3), None);
    let mut fresh = World::new(3);
    find_land_anchor(&mut fresh, (0, 0), 16);
    assert_eq!(fresh.chunks_iter().len(), 4);
    // The nearest, however close to an enemy house it lies.
    let mut w = World::from_saved(1, vec![((0, 0), Chunk::blank())]);
    w.plant_camp((16, 16), 1);
    assert_eq!(*w.enemy_house_tiles(), vec![(13, 13)]);
    assert_eq!(find_land_anchor(&mut w, (13, 13), 0), None);
    assert_eq!(find_land_anchor(&mut w, (13, 13), 1), Some((13, 12)));
    assert_eq!(find_land_anchor(&mut w, (20, 20), 5), Some((20, 20)));
}

#[test]
fn houses_close_together_are_a_village() {
    assert!(cluster(&vec![]).is_empty());
    // (9, 0) is too far from (0, 0), but (8, 8) is within reach of both.
    let mut near = cluster(&vec![(0, 0), (9, 0), (8, 8)]);
    assert_eq!(near.len(), 1);
    near[0].sort();
    assert_eq!(near[0], vec![(0, 0), (8, 8), (9, 0)]);
    let far = cluster(&vec![(0, 0), (9, 0), (0, 9)]);
    assert_eq!(far, vec![vec![(0, 0)], vec![(9, 0)], vec![(0, 9)]]);
}

#[test]
fn a_house_between_two_villages_joins_them() {
    let joined = cluster(&vec![(0, 0), (16, 0), (8, 0)]);
    assert_eq!(joined.len(), 1);
    let mut all = joined[0].clone();
    all.sort();
    assert_eq!(all, vec![(0, 0), (8, 0), (16, 0)]);
}

#[test]
fn a_village_has_a_middle() {
    let c = village_center(&vec![(0, 0), (3, 0), (0, 3), (3, 3)]);
    assert_eq!(c, Vec2::new(f(2.0), f(2.0)));
    let c = village_center(&vec![(-1, 2), (0, 2), (0, 3)]);
    assert_eq!(c, Vec2::new(f(-1.0 / 3.0 + 0.5), f(7.0 / 3.0 + 0.5)));
    assert_eq!(village_center(&vec![]), Vec2::new(f(0.5), f(0.5)));
}

#[test]
fn the_generator_repeats_itself() {
    let mut a = Rng::new(2);
    // One step of the shift register from 3.
    let mut x: u64 = 3;
    for _ in 0..10 {
        x ^= x << 13;
        x ^= x >> 7;
        x ^= x << 17;
        assert_eq!(a.next_u32(), (x >> 32) as u32);
    }
    let mut a = Rng::new(77);
    let mut b = Rng::new(77);
    for _ in 0..100 {
        let v = a.range(-6, 7);
        assert_eq!(v, b.range(-6, 7));
        assert!((-6..7).contains(&v));
    }
    assert_eq!(a.range(4, 4), 4);
    assert_eq!(a.range(4, -9), 4);
    let mut c = Rng::new(1);
    for _ in 0..20 {
        let v = c.range(i32::MIN, i32::MAX);
        assert!(v < i32::MAX);
    }
}

#[test]
fn different_seeds_go_different_ways() {
    let mut a = Rng::new(100);
    let mut b = Rng::new(102);
    let left: Vec<u32> = (0..8).map(|_| a.next_u32()).collect();
    let right: Vec<u32> = (0..8).map(|_| b.next_u32()).collect();
    assert_ne!(left, right);
    // Even a seed of nothing gets going.
    let mut z = Rng::new(0);
    let drawn: Vec<u32> = (0..8).map(|_| z.next_u32()).collect();
    assert!(drawn.iter().any(|v| *v != 0));
}
