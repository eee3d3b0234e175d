//! The game as it is played: building, working, fighting, growing.

use kingdom::chunk::{li, Chunk, Node, Resource, Tile};
use kingdom::float::F32;
use kingdom::founding::found_camps;
use kingdom::game::{BuildMode, Game, Sapling};
use kingdom::rng::Rng;
use kingdom::unit::{
    dir_from_vec, max_hp_for, owner_of, spawn_interval, Anim, Dir, Entity, Faction,
    GatherPriority, Job, Priority,
};
use kingdom::vec2::{tile_center, Vec2};
use kingdom::village::cluster;
use kingdom::world::World;

const SIM: (i32, i32, i32, i32) = (-20, -20, 20, 20);

fn f(v: f32) -> F32 {
    F32 { bits: v.to_bits() }
}

fn v(x: f32, y: f32) -> Vec2 {
    Vec2::new(f(x), f(y))
}

fn num(x: F32) -> f32 {
    f32::from_bits(x.bits)
}

/// A game on grass, with nobody in it yet.
fn meadow() -> Game {
    let mut chunks = Vec::new();
    for cy in -2..=1 {
        for cx in -2..=1 {
            chunks.push(((cx, cy), Chunk::blank()));
        }
    }
    Game {
        world: World::from_saved(5, chunks),
        entities: Vec::new(),
        wood: 20,
        stone: 20,
        build_mode: BuildMode::House,
        priority: Priority::Agriculture,
        gather_priority: GatherPriority::Balanced,
        enemies_defeated: 0,
        units_lost: 0,
        rally_point: None,
        player_house_tiles: Vec::new(),
        cave_tiles: Vec::new(),
        hut_tiles: Vec::new(),
        hut_orders: Vec::new(),
        saplings: Vec::new(),
        player_bridges: Vec::new(),
        enemy_spawn_timer: f(9.0),
        player_spawn_timer: f(7.0),
        player_spawn_cycle: 0,
        enemy_spawn_cycle: 0,
        rng: Rng::new(11),
    }
}

fn settle(g: &mut Game, x: i32, y: i32) {
    g.world.set_house(x, y, true);
    g.player_house_tiles.push((x, y));
}

fn join(g: &mut Game, faction: Faction, job: Job, x: i32, y: i32) {
    g.entities.push(Entity::new(faction, job, (x, y)));
}

/// Farmers who keep the village going, far from what is looked at.
fn hands(g: &mut Game, faction: Faction, n: i32) {
    for i in 0..n {
        join(g, faction, Job::Farmer, 50 + i, if faction == Faction::Player { 50 } else { -50 });
    }
}

// --- people -------------------------------------------------------------------------

#[test]
fn newcomers_are_in_full_health() {
    let e = Entity::new(Faction::Player, Job::Farmer, (2, -3));
    assert_eq!(e.pos, v(2.5, -2.5));
    assert_eq!(e.hp, f(28.0));
    assert_eq!(e.max_hp, f(28.0));
    assert_eq!(e.tile(), (2, -3));
    assert!(e.path_done());
    assert_eq!(max_hp_for(Faction::Enemy, Job::Farmer), f(22.0));
    assert_eq!(max_hp_for(Faction::Enemy, Job::Knight), f(60.0));
    assert_eq!(max_hp_for(Faction::Player, Job::Knight), f(60.0));
    assert_eq!(owner_of(Faction::Player), 0);
    assert_eq!(owner_of(Faction::Enemy), 1);
}

#[test]
fn people_face_where_they_go() {
    assert_eq!(dir_from_vec(v(1.0, 0.5)), Dir::Right);
    assert_eq!(dir_from_vec(v(-1.0, 1.0)), Dir::Left);
    assert_eq!(dir_from_vec(v(0.5, -1.0)), Dir::Up);
    assert_eq!(dir_from_vec(v(0.5, 1.0)), Dir::Down);
    assert_eq!(dir_from_vec(v(0.0, 0.0)), Dir::Right);
}

#[test]
fn people_walk_their_path() {
    let mut e = Entity::new(Faction::Player, Job::Farmer, (0, 0));
    e.set_path(vec![(1, 0), (1, 1)]);
    assert!(e.follow_path(f(2.4), f(0.1)));
    let step = 2.4f32 * 0.1;
    assert_eq!(e.pos, v(0.5 + 1.0 * step, 0.5));
    assert_eq!(e.facing, Dir::Right);
    for _ in 0..4 {
        e.follow_path(f(2.4), f(0.1));
    }
    assert_eq!(e.pos, v(1.5, 0.5));
    assert_eq!(e.path_cursor, 1);
    for _ in 0..10 {
        e.follow_path(f(2.4), f(0.1));
    }
    assert_eq!(e.pos, v(1.5, 1.5));
    assert!(e.path_done());
    assert!(!e.follow_path(f(2.4), f(0.1)));
    e.set_anim(Anim::Walk, f(0.1));
    assert_eq!(e.anim_time, f(0.0));
    e.set_anim(Anim::Walk, f(0.1));
    assert_eq!(e.anim_time, f(0.1));
}

#[test]
fn more_farmers_raise_people_faster() {
    assert_eq!(spawn_interval(f(7.0), 0), f(7.0));
    assert_eq!(spawn_interval(f(7.0), 3), f(7.0));
    assert_eq!(spawn_interval(f(7.0), 5), f(7.0 / 1.5));
    assert_eq!(spawn_interval(f(9.0), 100), f(1.5));
}

#[test]
fn preferences_name_a_resource() {
    assert_eq!(GatherPriority::Balanced.preferred(), None);
    assert_eq!(GatherPriority::Wood.preferred(), Some(Resource::Wood));
    assert_eq!(GatherPriority::Stone.preferred(), Some(Resource::Stone));
}

// --- founding -----------------------------------------------------------------------

#[test]
fn a_seed_is_reproducible() {
    let a = Game::new(7);
    let b = Game::new(7);
    assert_eq!(a.entities.len(), b.entities.len());
    assert_eq!(a.player_house_tiles, b.player_house_tiles);
    assert_eq!(a.world.enemy_house_tiles(), b.world.enemy_house_tiles());
    for i in 0..a.entities.len() {
        assert_eq!(a.entities[i].pos, b.entities[i].pos);
        assert_eq!(a.entities[i].job, b.entities[i].job);
    }
}

#[test]
fn a_new_game_has_a_village_and_rivals() {
    let g = Game::new(7);
    assert_eq!((g.wood, g.stone), (20, 20));
    assert!(g.player_house_tiles.len() <= 5);
    assert!(!g.player_house_tiles.is_empty());
    for &(x, y) in &g.player_house_tiles {
        assert!(g.world.is_house(x, y));
    }
    assert_eq!(g.population(), 6);
    assert_eq!(g.farmer_count(Faction::Player), 4);
    for &(x, y) in g.world.enemy_house_tiles() {
        assert!(g.world.is_enemy_house(x, y));
    }
    assert_eq!(cluster(g.world.enemy_house_tiles()).len(), 4);
    assert_eq!(g.pop_cap(), 6 + 3 * g.player_house_tiles.len());
    assert!(g.rally_point.is_none());
    assert!(g.saplings_iter().is_empty());
    assert!(g.hut_orders().is_empty());
}

#[test]
fn the_enemy_holds_four_villages() {
    for seed in [-5, 1, 1000] {
        let g = Game::new(seed);
        let villages = cluster(g.world.enemy_house_tiles());
        assert_eq!(villages.len(), 4, "seed {seed}");
        for v in villages {
            assert!(v.iter().all(|&(x, y)| g.world.is_enemy_house(x, y)));
        }
    }
}

#[test]
fn villages_rise_where_there_is_no_land() {
    let mut chunks = Vec::new();
    for cy in -13..=13 {
        for cx in -13..=13 {
            let mut c = Chunk::blank();
            for i in 0..1024 {
                c.tiles[i] = Tile::Water;
            }
            chunks.push(((cx, cy), c));
        }
    }
    let mut world = World::from_saved(1, chunks);
    let mut entities = Vec::new();
    found_camps(&mut world, &mut entities, &mut Rng::new(4));
    let villages = cluster(world.enemy_house_tiles());
    assert_eq!(villages.len(), 4);
    // East of one another, twelve tiles from the last house to the next middle.
    assert_eq!(villages[0], vec![(64, -3), (67, -3), (70, -3), (64, 0)]);
    assert_eq!(villages[1][0], (79, -3));
    assert_eq!(world.tile(67, 0), Tile::Grass);
    assert_eq!(world.tile(63, 4), Tile::Grass);
    assert_eq!(world.tile(62, 0), Tile::Water);
    assert_eq!(entities.len(), 24);
}

// --- building -----------------------------------------------------------------------

#[test]
fn houses_go_up_near_the_village() {
    let mut g = meadow();
    settle(&mut g, 0, 0);
    assert!(!g.try_build(v(6.5, 0.5)));
    assert!(g.try_build(v(5.5, -4.5)));
    assert_eq!((g.wood, g.stone), (12, 12));
    assert!(g.world.is_house(5, -5));
    assert_eq!(g.player_house_tiles, vec![(0, 0), (5, -5)]);
    // The new house extends the village.
    assert!(g.try_build(v(10.5, -4.5)));
    assert_eq!((g.wood, g.stone), (4, 4));
    // Nothing left to pay with, and the tile is taken anyway.
    assert!(!g.try_build(v(1.5, 1.5)));
    assert!(!g.try_build(v(0.5, 0.5)));
    assert_eq!((g.wood, g.stone), (4, 4));
}

#[test]
fn bridges_trace_back_to_a_house() {
    let mut c = Chunk::blank();
    for x in 8..32 {
        for y in 0..32 {
            c.tiles[li(x, y)] = Tile::Water;
        }
    }
    let mut g = meadow();
    g.world = World::from_saved(5, vec![((0, 0), c)]);
    settle(&mut g, 4, 4);
    g.build_mode = BuildMode::Bridge;
    assert!(!g.try_build(v(11.5, 4.5)));
    assert!(g.try_build(v(9.5, 4.5)));
    assert_eq!(g.wood, 17);
    assert!(g.try_build(v(11.5, 4.5)));
    assert!(!g.try_build(v(14.5, 4.5)));
    assert!(!g.try_build(v(7.5, 4.5)));
    assert_eq!(g.player_bridges, vec![(9, 4), (11, 4)]);
    assert!(g.near_player_bridge(13, 6));
    assert!(!g.near_player_bridge(14, 6));
    g.wood = 2;
    assert!(!g.try_build(v(10.5, 4.5)));
}

#[test]
fn mines_and_walls_are_paid_for() {
    let mut g = meadow();
    settle(&mut g, 0, 0);
    g.build_mode = BuildMode::Mine;
    assert!(g.try_build(v(2.5, 0.5)));
    assert_eq!((g.wood, g.stone), (20, 8));
    assert_eq!(g.cave_tiles, vec![(2, 0)]);
    assert!(g.world.is_cave(2, 0));
    assert!(!g.try_build(v(3.5, 0.5)));
    g.build_mode = BuildMode::Wall;
    assert!(g.try_build(v(0.5, 3.5)));
    assert_eq!((g.wood, g.stone), (18, 4));
    assert_eq!(g.world.wall(0, 3).unwrap().hp, f(220.0));
    assert_eq!(g.world.wall(0, 3).unwrap().owner, 0);
    assert!(g.try_build(v(1.5, 3.5)));
    assert!(!g.try_build(v(2.5, 3.5)));
    assert_eq!((g.wood, g.stone), (16, 0));
}

#[test]
fn hut_orders_come_and_go() {
    let mut g = meadow();
    g.build_mode = BuildMode::Hut;
    assert!(!g.try_build(v(3.5, 3.5)));
    g.world.set_node(3, 3, Resource::Stone, 5);
    assert!(!g.try_build(v(3.5, 3.5)));
    g.world.set_node(3, 3, Resource::Wood, 5);
    assert!(g.try_build(v(3.5, 3.5)));
    assert_eq!(*g.hut_orders(), vec![(3, 3)]);
    assert!(g.try_build(v(3.1, 3.9)));
    assert!(g.hut_orders().is_empty());
    assert_eq!((g.wood, g.stone), (20, 20));
}

#[test]
fn the_rally_flag_comes_and_goes() {
    let mut g = meadow();
    g.build_mode = BuildMode::Rally;
    assert!(g.try_build(v(3.2, -3.2)));
    assert_eq!(g.rally_point, Some(v(3.5, -3.5)));
    assert!(g.try_build(v(4.2, -3.2)));
    assert_eq!(g.rally_point, Some(v(4.5, -3.5)));
    assert!(g.try_build(v(4.9, -3.9)));
    assert_eq!(g.rally_point, None);
    g.try_build(v(0.0, 0.0));
    g.clear_rally();
    assert_eq!(g.rally_point, None);
}

// --- growing ------------------------------------------------------------------------

#[test]
fn saplings_become_trees() {
    let mut g = meadow();
    g.saplings.push(Sapling { tile: (1, 1), grow: f(0.0) });
    g.saplings.push(Sapling { tile: (2, 1), grow: f(0.5) });
    g.saplings.push(Sapling { tile: (3, 1), grow: f(0.0) });
    g.world.set_house(3, 1, true);
    g.grow_saplings(f(3.0));
    assert_eq!(g.world.node(2, 1), Some(Node { kind: Resource::Wood, amount: 5 }));
    assert_eq!(g.saplings_iter().len(), 1);
    assert_eq!(g.saplings_iter()[0].tile, (1, 1));
    assert_eq!(g.saplings_iter()[0].grow, f(0.5));
    g.grow_saplings(f(3.0));
    assert!(g.saplings_iter().is_empty());
    assert!(g.world.node(1, 1).is_some());
    assert!(g.world.node(3, 1).is_none());
}

#[test]
fn houses_raise_workers_while_there_are_enough() {
    let mut g = meadow();
    settle(&mut g, 0, 0);
    hands(&mut g, Faction::Player, 3);
    g.handle_spawns(f(7.0));
    assert_eq!(g.population(), 3);
    assert_eq!(g.player_spawn_timer, f(7.0));
    hands(&mut g, Faction::Player, 1);
    g.handle_spawns(f(7.0));
    assert_eq!(g.population(), 5);
    assert_eq!(g.player_spawn_timer, f(7.0 / 1.25));
    assert_eq!(g.entities.last().unwrap().job, Job::Farmer);
    assert_eq!(g.entities.last().unwrap().tile(), (1, 0));
    // Farmer, farmer, knight.
    g.handle_spawns(f(7.0));
    assert_eq!(g.entities.last().unwrap().job, Job::Farmer);
    g.handle_spawns(f(7.0));
    assert_eq!(g.entities.last().unwrap().job, Job::Knight);
    assert_eq!(g.player_spawn_cycle, 3);
}

#[test]
fn the_military_raises_more_knights() {
    let mut g = meadow();
    settle(&mut g, 0, 0);
    g.priority = Priority::Military;
    hands(&mut g, Faction::Player, 4);
    let mut jobs = Vec::new();
    for _ in 0..3 {
        g.handle_spawns(f(7.0));
        jobs.push(g.entities.last().unwrap().job);
    }
    assert_eq!(jobs, vec![Job::Farmer, Job::Knight, Job::Knight]);
}

#[test]
fn there_is_a_cap_on_everyone() {
    let mut g = meadow();
    settle(&mut g, 0, 0);
    assert_eq!(g.pop_cap(), 9);
    hands(&mut g, Faction::Player, 9);
    g.handle_spawns(f(7.0));
    assert_eq!(g.population(), 9);
    for i in 0..20 {
        settle(&mut g, i, 30);
    }
    assert_eq!(g.pop_cap(), 40);
    g.world.plant_camp((0, 0), 4);
    hands(&mut g, Faction::Enemy, 16);
    g.handle_spawns(f(9.0));
    assert_eq!(g.enemy_count(), 16);
    assert_eq!(g.enemy_spawn_timer, f(9.0 / 4.25));
}

#[test]
fn the_enemy_raises_two_knights_for_a_farmer() {
    let mut g = meadow();
    g.world.plant_camp((0, 0), 4);
    hands(&mut g, Faction::Enemy, 4);
    let mut jobs = Vec::new();
    for _ in 0..3 {
        g.handle_spawns(f(9.0));
        jobs.push(g.entities.last().unwrap().job);
        assert_eq!(g.entities.last().unwrap().faction, Faction::Enemy);
    }
    assert_eq!(jobs, vec![Job::Knight, Job::Knight, Job::Farmer]);
}

// --- working ------------------------------------------------------------------------

#[test]
fn farmers_bring_in_wood() {
    let mut g = meadow();
    settle(&mut g, 0, 0);
    g.world.set_node(4, 0, Resource::Wood, 2);
    join(&mut g, Faction::Player, Job::Farmer, 2, 0);
    for _ in 0..70 {
        g.update(f(0.1), SIM);
    }
    assert_eq!(g.wood, 22);
    assert!(g.world.node(4, 0).is_none());
    assert_eq!(g.stone, 20);
}

#[test]
fn farmers_prefer_what_they_are_told() {
    let mut g = meadow();
    settle(&mut g, 0, 0);
    g.world.set_node(3, 0, Resource::Wood, 5);
    g.world.set_node(-6, 0, Resource::Stone, 5);
    g.gather_priority = GatherPriority::Stone;
    join(&mut g, Faction::Player, Job::Farmer, 2, 1);
    for _ in 0..80 {
        g.update(f(0.1), SIM);
    }
    assert_eq!(g.wood, 20);
    assert!(g.stone > 20);
}

#[test]
fn farmers_stay_on_the_leash() {
    let mut g = meadow();
    settle(&mut g, 0, 0);
    // The only tree is out of reach, so there is sowing to do.
    g.world.set_node(25, 0, Resource::Wood, 5);
    g.gather_priority = GatherPriority::Wood;
    join(&mut g, Faction::Player, Job::Farmer, 14, 0);
    for _ in 0..120 {
        g.update(f(0.1), (-40, -40, 40, 40));
        let (x, y) = g.entities[0].tile();
        assert!(x.abs() <= 16 && y.abs() <= 16);
    }
    assert_eq!(g.world.node(25, 0), Some(Node { kind: Resource::Wood, amount: 5 }));
    assert!(!g.saplings_iter().is_empty() || g.wood > 20);
}

#[test]
fn farmers_leave_what_lies_just_off_the_leash() {
    let mut g = meadow();
    settle(&mut g, 0, 0);
    // One would have to stand at 17 to reach this tree, and the leash ends at 16.
    g.world.set_node(18, 0, Resource::Wood, 5);
    g.gather_priority = GatherPriority::Wood;
    join(&mut g, Faction::Player, Job::Farmer, 15, 0);
    for _ in 0..150 {
        g.update(f(0.1), (-40, -40, 40, 40));
        let (x, y) = g.entities[0].tile();
        assert!(x.abs() <= 16 && y.abs() <= 16);
        assert_ne!(g.entities[0].target_node, Some((18, 0)));
    }
    assert_eq!(g.world.node(18, 0), Some(Node { kind: Resource::Wood, amount: 5 }));
    // One tile nearer, it is worked from 16.
    let mut g = meadow();
    settle(&mut g, 0, 0);
    g.world.set_node(17, 0, Resource::Wood, 5);
    g.gather_priority = GatherPriority::Wood;
    join(&mut g, Faction::Player, Job::Farmer, 15, 0);
    for _ in 0..100 {
        g.update(f(0.1), (-40, -40, 40, 40));
        assert!(g.entities[0].tile().0 <= 16);
    }
    assert!(g.wood > 20);
}

#[test]
fn farmers_who_strayed_come_home() {
    let mut g = meadow();
    settle(&mut g, 0, 0);
    join(&mut g, Faction::Player, Job::Farmer, 24, 0);
    for _ in 0..60 {
        g.update(f(0.1), (-40, -40, 40, 40));
    }
    assert!(g.entities[0].tile().0 <= 16);
}

#[test]
fn four_farmers_fit_in_a_mine() {
    let mut g = meadow();
    settle(&mut g, 0, 0);
    g.gather_priority = GatherPriority::Stone;
    g.world.set_cave(5, 5, true);
    g.cave_tiles.push((5, 5));
    for i in 0..7 {
        join(&mut g, Faction::Player, Job::Farmer, i, 3);
    }
    for _ in 0..90 {
        g.update(f(0.1), SIM);
        let working = g.entities.iter().filter(|e| e.mine_target == Some((5, 5))).count();
        assert!(working <= 4);
    }
    let working = g.entities.iter().filter(|e| e.mine_target == Some((5, 5))).count();
    assert_eq!(working, 4);
    assert!(g.stone > 20);
}

#[test]
fn knights_build_the_huts_ordered() {
    let mut g = meadow();
    settle(&mut g, 0, 0);
    hands(&mut g, Faction::Player, 4);
    g.world.set_node(6, 0, Resource::Wood, 5);
    g.hut_orders.push((6, 0));
    join(&mut g, Faction::Player, Job::Knight, 3, 0);
    for _ in 0..80 {
        g.update(f(0.1), SIM);
    }
    let hut = g.world.hut(6, 0).unwrap();
    assert_eq!((hut.owner, hut.hp, hut.occupants), (0, f(400.0), 0));
    assert_eq!(g.hut_tiles, vec![(6, 0)]);
    assert!(g.hut_orders().is_empty());
    assert!(g.world.node(6, 0).is_none());
}

#[test]
fn the_flag_comes_before_the_hut() {
    let mut g = meadow();
    settle(&mut g, 0, 0);
    hands(&mut g, Faction::Player, 4);
    g.world.set_node(6, 0, Resource::Wood, 5);
    g.hut_orders.push((6, 0));
    join(&mut g, Faction::Player, Job::Knight, 5, 0);
    g.entities[4].build_site = Some((6, 0));
    g.entities[4].harvest_timer = f(1.0);
    g.rally_point = Some(v(0.5, 8.5));
    g.update(f(0.1), SIM);
    assert_eq!(g.entities[4].build_site, None);
    assert_eq!(g.entities[4].harvest_timer, f(1.0));
    assert_eq!(g.entities[4].path.last(), Some(&(0, 8)));
    assert_eq!(g.entities[4].anim, Anim::Walk);
    for _ in 0..20 {
        g.update(f(0.1), SIM);
        assert!(g.world.hut(6, 0).is_none());
    }
    // Once there, the knight goes back to the order.
    for _ in 0..150 {
        g.update(f(0.1), SIM);
    }
    assert_eq!(g.rally_point, None);
    assert!(g.world.hut(6, 0).is_some());
}

// --- fighting -----------------------------------------------------------------------

#[test]
fn knights_strike_who_is_in_reach() {
    let mut g = meadow();
    join(&mut g, Faction::Player, Job::Knight, 0, 0);
    join(&mut g, Faction::Enemy, Job::Farmer, 0, 0);
    join(&mut g, Faction::Enemy, Job::Farmer, 5, 0);
    g.entities[1].pos = v(1.3, 0.5);
    g.update(f(0.1), SIM);
    let blow = 16.0f32 * 0.1;
    assert_eq!(g.entities[1].hp, f(22.0 - blow));
    assert_eq!(g.entities[2].hp, f(22.0));
    assert_eq!(g.entities[0].hp, f(60.0));
    assert_eq!(g.entities[0].facing, Dir::Right);
}

#[test]
fn both_sides_take_damage() {
    let mut g = meadow();
    join(&mut g, Faction::Player, Job::Knight, 0, 0);
    join(&mut g, Faction::Enemy, Job::Knight, 0, 0);
    g.update(f(0.05), SIM);
    let blow = 16.0f32 * 0.05;
    assert_eq!(g.entities[0].hp, f(60.0 - blow));
    assert_eq!(g.entities[1].hp, f(60.0 - blow));
}

#[test]
fn a_long_frame_counts_as_a_tenth_of_a_second() {
    let mut g = meadow();
    join(&mut g, Faction::Player, Job::Knight, 0, 0);
    join(&mut g, Faction::Enemy, Job::Farmer, 0, 0);
    g.update(f(30.0), SIM);
    assert_eq!(g.entities[1].hp, f(22.0 - 16.0f32 * 0.1));
}

#[test]
fn whoever_is_out_of_sight_waits() {
    let mut g = meadow();
    join(&mut g, Faction::Player, Job::Knight, 50, 50);
    join(&mut g, Faction::Enemy, Job::Farmer, 50, 50);
    g.update(f(0.1), SIM);
    assert_eq!(g.entities[1].hp, f(22.0));
    assert_eq!(g.entities[0].pos, tile_center((50, 50)));
}

#[test]
fn the_dead_are_counted() {
    let mut g = meadow();
    hands(&mut g, Faction::Player, 1);
    join(&mut g, Faction::Player, Job::Knight, 0, 0);
    join(&mut g, Faction::Enemy, Job::Farmer, 0, 0);
    join(&mut g, Faction::Player, Job::Farmer, 3, 3);
    g.entities[2].hp = f(0.5);
    g.entities[3].hp = f(-1.0);
    g.update(f(0.1), SIM);
    assert_eq!((g.enemies_defeated, g.units_lost), (1, 1));
    assert_eq!(g.entities.len(), 2);
    assert_eq!(g.enemy_count(), 0);
}

#[test]
fn the_slain_have_no_turn() {
    // Short of hands, a knight goes home to farm; but not after falling.
    let mut g = meadow();
    settle(&mut g, 0, 0);
    join(&mut g, Faction::Player, Job::Knight, 1, 0);
    join(&mut g, Faction::Enemy, Job::Knight, 1, 0);
    g.entities[0].hp = f(0.1);
    g.update(f(0.1), SIM);
    assert_eq!(g.units_lost, 1);
    assert_eq!(g.population(), 0);
    assert_eq!(g.enemies_defeated, 0);
    assert_eq!(g.enemy_count(), 1);
    assert!(g.entities.iter().all(|e| num(e.hp) > 0.0));
}

#[test]
fn walls_are_hacked_down() {
    let mut g = meadow();
    hands(&mut g, Faction::Enemy, 4);
    join(&mut g, Faction::Enemy, Job::Knight, 0, 0);
    g.world.set_wall(1, 0, 0, f(220.0));
    g.update(f(0.1), SIM);
    assert_eq!(g.world.wall(1, 0).unwrap().hp, f(220.0 - 18.0f32 * 0.1));
}

#[test]
fn huts_under_attack_call_the_knights() {
    let mut g = meadow();
    hands(&mut g, Faction::Enemy, 4);
    join(&mut g, Faction::Enemy, Job::Knight, 0, 0);
    g.world.set_hut(1, 0, 0, f(400.0));
    g.world.add_hut_occupant(1, 0);
    g.hut_tiles.push((1, 0));
    g.update(f(0.1), SIM);
    assert_eq!(g.rally_point, Some(v(1.5, 0.5)));
    assert_eq!(g.world.hut(1, 0).unwrap().hp, f(400.0 - 18.0f32 * 0.1));
    // Razed with the farmer inside.
    g.world.set_hut(1, 0, 0, f(1.0));
    g.world.add_hut_occupant(1, 0);
    g.world.add_hut_occupant(1, 0);
    g.hit_huts(&vec![((1, 0), f(5.0))]);
    assert_eq!(g.units_lost, 2);
    assert!(g.hut_tiles.is_empty());
    assert!(g.world.hut(1, 0).is_none());
    g.world.set_hut(1, 0, 1, f(1.0));
    g.world.add_hut_occupant(1, 0);
    g.hit_huts(&vec![((1, 0), f(5.0))]);
    assert_eq!(g.enemies_defeated, 1);
}

#[test]
fn farmers_hide_and_come_out_again() {
    let mut g = meadow();
    settle(&mut g, 0, 0);
    hands(&mut g, Faction::Player, 4);
    g.world.set_hut(5, 0, 0, f(400.0));
    g.hut_tiles.push((5, 0));
    join(&mut g, Faction::Player, Job::Farmer, 4, 0);
    join(&mut g, Faction::Enemy, Job::Farmer, 8, 0);
    let before = g.population();
    g.update(f(0.1), SIM);
    assert_eq!(g.population(), before - 1);
    assert_eq!(g.world.hut(5, 0).unwrap().occupants, 1);
    assert_eq!(g.units_lost, 0);
    // The enemy is gone.
    g.entities.retain(|e| e.faction == Faction::Player);
    g.emerge_from_huts();
    assert_eq!(g.population(), before);
    assert_eq!(g.world.hut(5, 0).unwrap().occupants, 0);
    assert_eq!(g.entities.last().unwrap().tile(), (6, 0));
}

#[test]
fn a_full_hut_takes_no_more() {
    let mut g = meadow();
    settle(&mut g, 0, 0);
    g.world.set_hut(5, 0, 0, f(400.0));
    for _ in 0..4 {
        g.world.add_hut_occupant(5, 0);
    }
    g.hut_tiles.push((5, 0));
    join(&mut g, Faction::Player, Job::Farmer, 4, 0);
    join(&mut g, Faction::Enemy, Job::Farmer, 8, 0);
    g.update(f(0.1), SIM);
    assert_eq!(g.population(), 1);
    assert_eq!(g.world.hut(5, 0).unwrap().occupants, 4);
}

#[test]
fn knights_rush_to_the_flag_and_lift_it() {
    let mut g = meadow();
    hands(&mut g, Faction::Player, 4);
    join(&mut g, Faction::Player, Job::Knight, 0, 0);
    g.rally_point = Some(v(8.5, 0.5));
    g.update(f(0.1), SIM);
    assert!(g.rally_point.is_some());
    assert_eq!(g.entities[4].anim, Anim::Walk);
    for _ in 0..40 {
        g.update(f(0.1), SIM);
    }
    assert_eq!(g.rally_point, None);
    assert!(num(g.entities[4].pos.x) > 5.9);
    // Farmers do not lift it.
    let mut g = meadow();
    join(&mut g, Faction::Player, Job::Farmer, 0, 0);
    g.rally_point = Some(v(0.5, 0.5));
    g.clear_reached_rally();
    assert!(g.rally_point.is_some());
}

#[test]
fn knights_go_home_to_farm_when_hands_are_short() {
    let mut g = meadow();
    settle(&mut g, 0, 0);
    join(&mut g, Faction::Player, Job::Knight, 1, 0);
    g.entities[0].hp = f(10.0);
    g.update(f(0.1), SIM);
    assert_eq!(g.entities[0].job, Job::Farmer);
    assert_eq!(g.entities[0].hp, f(28.0));
    assert_eq!(g.entities[0].max_hp, f(28.0));
    assert_eq!(g.world.wall(-1, -1).unwrap().owner, 0);
    assert_eq!(g.world.wall(-1, -1).unwrap().hp, f(220.0));
}

#[test]
fn knights_cut_through_when_there_is_no_other_way() {
    let mut g = meadow();
    hands(&mut g, Faction::Player, 4);
    join(&mut g, Faction::Player, Job::Knight, 0, 0);
    for y in -1..=1 {
        for x in -1..=1 {
            if (x, y) != (0, 0) {
                g.world.set_node(x, y, Resource::Stone, 5);
            }
        }
    }
    g.rally_point = Some(v(6.5, 0.5));
    for _ in 0..60 {
        g.update(f(0.1), SIM);
    }
    assert!(g.world.node(1, 0).is_none());
    assert_eq!(g.stone, 20);
}

// --- villages -----------------------------------------------------------------------

#[test]
fn undefended_villages_are_taken() {
    let mut g = meadow();
    g.world.plant_camp((0, 0), 2);
    g.world.set_wall(1, 1, 1, f(50.0));
    join(&mut g, Faction::Player, Job::Farmer, 0, 0);
    g.resolve_captures();
    assert!(g.world.enemy_house_tiles().is_empty());
    assert_eq!(g.player_house_tiles.len(), 2);
    assert!(g.world.is_house(-3, -3));
    assert!(g.world.is_house(0, -3));
    assert_eq!(g.world.wall(1, 1).unwrap().owner, 0);
    assert!(g.rally_point.is_none());
}

#[test]
fn a_defender_keeps_the_village() {
    let mut g = meadow();
    g.world.plant_camp((0, 0), 2);
    join(&mut g, Faction::Player, Job::Farmer, 0, 0);
    join(&mut g, Faction::Enemy, Job::Farmer, -7, -3);
    assert!(!g.village_undefended(&vec![(-3, -3), (0, -3)], Faction::Enemy));
    g.resolve_captures();
    assert_eq!(g.world.enemy_house_tiles().len(), 2);
    assert!(g.player_house_tiles.is_empty());
}

#[test]
fn a_defended_village_stays_while_another_falls() {
    let mut g = meadow();
    settle(&mut g, 0, 0);
    settle(&mut g, 20, 0);
    join(&mut g, Faction::Player, Job::Farmer, 0, 1);
    join(&mut g, Faction::Enemy, Job::Knight, 1, 1);
    join(&mut g, Faction::Enemy, Job::Knight, 21, 1);
    g.resolve_captures();
    assert_eq!(g.player_house_tiles, vec![(0, 0)]);
    assert!(g.world.is_house(0, 0));
    assert_eq!(*g.world.enemy_house_tiles(), vec![(20, 0)]);
}

#[test]
fn an_empty_village_is_nobodys_to_take() {
    let mut g = meadow();
    settle(&mut g, 0, 0);
    assert!(!g.village_undefended(&vec![(0, 0)], Faction::Player));
    g.resolve_captures();
    assert!(g.world.is_house(0, 0));
}

#[test]
fn a_lost_village_calls_the_knights() {
    let mut g = meadow();
    settle(&mut g, 0, 0);
    settle(&mut g, 3, 0);
    join(&mut g, Faction::Enemy, Job::Knight, 1, 1);
    g.resolve_captures();
    assert!(g.player_house_tiles.is_empty());
    assert!(g.world.is_enemy_house(0, 0));
    assert!(g.world.is_enemy_house(3, 0));
    assert_eq!(g.world.enemy_house_tiles().len(), 2);
    assert_eq!(g.rally_point, Some(v(2.0, 0.5)));
}

#[test]
fn houses_are_found_again() {
    let mut g = meadow();
    g.world.set_house(-5, 3, true);
    g.rescan_player_houses();
    assert_eq!(g.player_house_tiles, vec![(-5, 3)]);
}

#[test]
fn land_is_kept_round_those_in_sight() {
    let mut g = meadow();
    g.world = World::new(5);
    join(&mut g, Faction::Player, Job::Farmer, 0, 0);
    join(&mut g, Faction::Player, Job::Farmer, 500, 500);
    g.ensure_around_entities(SIM);
    assert_eq!(g.world.chunks_iter().len(), 16);
    let mut empty = meadow();
    empty.world = World::new(5);
    empty.ensure_around_entities(SIM);
    assert_eq!(empty.world.chunks_iter().len(), 0);
}

#[test]
fn land_stays_sound() {
    let mut g = Game::new(21);
    for _ in 0..30 {
        g.update(f(0.1), (-60, -60, 60, 60));
    }
    for (_, chunk) in g.world.chunks_iter() {
        for i in 0..1024 {
            let c = chunk.cell(i);
            assert!(c.node.map_or(true, |n| n.amount <= 5));
            assert!(c.wall.map_or(true, |w| w.owner <= 1));
            assert!(c.hut.map_or(true, |h| h.owner <= 1 && h.occupants <= 4));
        }
    }
    let cam = kingdom::game::CamState { cx: f(0.0), cy: f(0.0), view_height: f(28.0) };
    let (back, _) = Game::from_bytes(&g.to_bytes(cam)).unwrap();
    for (coord, chunk) in g.world.chunks_iter() {
        for i in 0..1024 {
            let (x, y) = kingdom::chunk::place(coord.0, coord.1, i);
            assert_eq!(back.world.cell(x, y), Some(chunk.cell(i)));
        }
    }
}

/// The tiles where such a building stands, in order.
fn found(g: &Game, is_there: impl Fn(&kingdom::chunk::Cell) -> bool) -> Vec<(i32, i32)> {
    let mut tiles = Vec::new();
    for (coord, chunk) in g.world.chunks_iter() {
        for i in 0..1024 {
            if is_there(&chunk.cell(i)) {
                tiles.push(kingdom::chunk::place(coord.0, coord.1, i));
            }
        }
    }
    tiles.sort();
    tiles
}

fn sorted(tiles: &[(i32, i32)]) -> Vec<(i32, i32)> {
    let mut tiles = tiles.to_vec();
    tiles.sort();
    tiles
}

fn lists_agree(g: &Game) {
    assert_eq!(sorted(&g.player_house_tiles), found(g, |c| c.house));
    assert_eq!(sorted(g.world.enemy_house_tiles()), found(g, |c| c.enemy_house));
    assert_eq!(sorted(&g.cave_tiles), found(g, |c| c.cave));
    assert_eq!(sorted(&g.hut_tiles), found(g, |c| c.hut.is_some()));
}

#[test]
fn lists_name_what_stands_on_the_land() {
    let mut g = Game::new(21);
    assert!(!g.player_house_tiles.is_empty());
    assert!(!g.world.enemy_house_tiles().is_empty());
    lists_agree(&g);
    g.wood = 1000;
    g.stone = 1000;
    let home = g.player_house_tiles[0];
    let before = g.player_house_tiles.len();
    for mode in [BuildMode::House, BuildMode::Mine, BuildMode::Wall, BuildMode::Hut] {
        g.build_mode = mode;
        for dy in -6..=6 {
            for dx in -6..=6 {
                g.try_build(v((home.0 + dx) as f32 + 0.5, (home.1 + dy) as f32 + 0.5));
            }
        }
        lists_agree(&g);
    }
    assert!(g.player_house_tiles.len() > before);
    for _ in 0..30 {
        g.update(f(0.1), (-60, -60, 60, 60));
    }
    lists_agree(&g);
    let cam = kingdom::game::CamState { cx: f(0.0), cy: f(0.0), view_height: f(28.0) };
    let (back, _) = Game::from_bytes(&g.to_bytes(cam)).unwrap();
    lists_agree(&back);
    assert_eq!(sorted(&back.player_house_tiles), sorted(&g.player_house_tiles));
    assert_eq!(sorted(&back.cave_tiles), sorted(&g.cave_tiles));
    assert_eq!(sorted(&back.hut_tiles), sorted(&g.hut_tiles));
    assert_eq!(sorted(back.world.enemy_house_tiles()), sorted(g.world.enemy_house_tiles()));
}
