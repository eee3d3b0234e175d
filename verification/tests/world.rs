//! Land: generation, what stands on it, and how it changes.

use fastnoise_lite::{FastNoiseLite, NoiseType};
use kingdom::chunk::{
    chunk_of, coord, li, local_of, place, Cell, Chunk, Node, Resource, Tile, CHUNK, CHUNK_TILES,
    NO_OWNER,
};
use kingdom::float::F32;
use kingdom::terrain::{generate_chunk, span_bridges, terrain_cell};
use kingdom::world::World;

fn f(v: f32) -> F32 {
    F32 { bits: v.to_bits() }
}

/// Grass as far as the eye can see, and then some.
fn meadow() -> World {
    let mut chunks = Vec::new();
    for cy in -1..=1 {
        for cx in -1..=1 {
            chunks.push(((cx, cy), Chunk::blank()));
        }
    }
    World::from_saved(5, chunks)
}

#[test]
fn coordinates_split_into_chunk_and_place() {
    assert_eq!(chunk_of(0), 0);
    assert_eq!(chunk_of(31), 0);
    assert_eq!(chunk_of(32), 1);
    assert_eq!(chunk_of(-1), -1);
    assert_eq!(chunk_of(-32), -1);
    assert_eq!(chunk_of(-33), -2);
    assert_eq!(local_of(-1), 31);
    assert_eq!(local_of(-32), 0);
    assert_eq!(local_of(33), 1);
    assert_eq!(li(3, 2), 67);
    assert_eq!(coord(-1, 31), -1);
    assert_eq!(place(-1, 2, 67), (-29, 66));
}

#[test]
fn terrain_follows_the_noise() {
    for (seed, cx, cy) in [(42, 0, 0), (42, -1, 2), (-7, 3, -2), (i32::MAX, 1, 1)] {
        let mut elevation = FastNoiseLite::with_seed(seed);
        elevation.set_noise_type(Some(NoiseType::OpenSimplex2));
        elevation.set_frequency(Some(0.035));
        let mut scatter = FastNoiseLite::with_seed(seed.wrapping_add(1337));
        scatter.set_noise_type(Some(NoiseType::OpenSimplex2));
        scatter.set_frequency(Some(0.12));
        let chunk = generate_chunk(seed, cx, cy);
        for i in 0..CHUNK_TILES {
            let (x, y) = place(cx, cy, i);
            let e = elevation.get_noise_2d(x as f32, y as f32);
            let s = scatter.get_noise_2d(x as f32, y as f32);
            let tile = if e < -0.12 { Tile::Water } else { Tile::Grass };
            let node = if tile == Tile::Water {
                None
            } else if s > 0.45 {
                Some(Node { kind: Resource::Wood, amount: 5 })
            } else if s < -0.5 {
                Some(Node { kind: Resource::Stone, amount: 5 })
            } else {
                None
            };
            assert_eq!(chunk.tiles[i], tile, "seed {seed} tile {x},{y}");
            assert_eq!(chunk.nodes[i], node, "seed {seed} tile {x},{y}");
        }
    }
}

#[test]
fn levels_decide_the_terrain() {
    assert_eq!(terrain_cell(f(-0.13), f(0.9)).tile, Tile::Water);
    assert_eq!(terrain_cell(f(-0.13), f(0.9)).node, None);
    assert_eq!(terrain_cell(f(-0.12), f(0.0)).tile, Tile::Grass);
    let wood = Some(Node { kind: Resource::Wood, amount: 5 });
    let stone = Some(Node { kind: Resource::Stone, amount: 5 });
    assert_eq!(terrain_cell(f(0.0), f(0.46)).node, wood);
    assert_eq!(terrain_cell(f(0.0), f(0.45)).node, None);
    assert_eq!(terrain_cell(f(0.0), f(-0.5)).node, None);
    assert_eq!(terrain_cell(f(0.0), f(-0.51)).node, stone);
}

/// A chunk of grass with a channel of that width running down its middle.
fn channel(width: i32) -> Chunk {
    let mut c = Chunk::blank();
    for y in 0..CHUNK {
        for x in 10..10 + width {
            c.tiles[li(x, y)] = Tile::Water;
        }
    }
    c
}

#[test]
fn only_channels_one_tile_wide_are_bridged() {
    let mut c = channel(1);
    span_bridges(&mut c);
    for y in 0..CHUNK {
        for x in 0..CHUNK {
            // The water has to go on above and below.
            let want = x == 10 && y > 0 && y < CHUNK - 1;
            assert_eq!(c.bridges[li(x, y)], want, "{x},{y}");
        }
    }
    for width in 2..=5 {
        let mut c = channel(width);
        span_bridges(&mut c);
        assert!(c.bridges.iter().all(|b| !b), "width {width}");
    }
}

#[test]
fn notches_and_ponds_are_left_alone() {
    let mut c = Chunk::blank();
    c.tiles[li(5, 5)] = Tile::Water;
    span_bridges(&mut c);
    assert!(!c.bridges[li(5, 5)]);
    // A channel along the edge of the chunk has no far bank.
    let mut c = Chunk::blank();
    for y in 0..CHUNK {
        c.tiles[li(0, y)] = Tile::Water;
    }
    span_bridges(&mut c);
    assert!(c.bridges.iter().all(|b| !b));
}

#[test]
fn channels_across_are_bridged_too() {
    let mut c = Chunk::blank();
    for x in 0..CHUNK {
        c.tiles[li(x, 7)] = Tile::Water;
        c.tiles[li(x, 20)] = Tile::Water;
        c.tiles[li(x, 21)] = Tile::Water;
    }
    span_bridges(&mut c);
    assert!(c.bridges[li(4, 7)]);
    assert!(!c.bridges[li(0, 7)]);
    assert!(!c.bridges[li(4, 6)]);
    assert!(!c.bridges[li(4, 20)]);
    assert!(!c.bridges[li(4, 21)]);
}

#[test]
fn natural_bridges_stand_on_water() {
    for seed in 0..6 {
        let c = generate_chunk(seed, 0, 0);
        for i in 0..CHUNK_TILES {
            assert!(!c.bridges[i] || c.tiles[i] == Tile::Water);
            assert!(c.tiles[i] == Tile::Grass || c.nodes[i].is_none());
        }
    }
}

#[test]
fn unknown_land_reads_as_empty_water() {
    let w = World::new(9);
    assert_eq!(w.seed(), 9);
    assert_eq!(w.tile(3, 3), Tile::Water);
    assert!(w.node(3, 3).is_none());
    assert!(!w.walkable(3, 3));
    assert!(!w.is_open_grass(3, 3));
    assert!(!w.is_open_water(3, 3));
    assert!(w.cell(3, 3).is_none());
    assert_eq!(w.chunks_iter().len(), 0);
}

#[test]
fn regions_are_generated_whole() {
    let mut w = World::new(9);
    w.ensure_region(-1, 0, 32, 31);
    let coords: Vec<(i32, i32)> = w.chunks_iter().iter().map(|c| c.0).collect();
    assert_eq!(coords, vec![(-1, 0), (0, 0), (1, 0)]);
    w.ensure(0, 0);
    assert_eq!(w.chunks_iter().len(), 3);
    w.ensure_region(5, 5, -40, -40);
    assert_eq!(w.chunks_iter().len(), 3);
}

#[test]
fn loading_more_land_keeps_what_is_there() {
    let mut w = World::new(9);
    w.set_cave(5, 5, true);
    let before = w.cell(5, 5);
    w.ensure_region(-100, -100, 100, 100);
    assert_eq!(w.cell(5, 5), before);
    assert!(w.is_cave(5, 5));
}

#[test]
fn walls_are_gates_for_their_owner() {
    let mut w = meadow();
    assert!(w.walkable(2, 2));
    w.set_wall(2, 2, 0, f(220.0));
    assert!(w.walkable_for(0, 2, 2));
    assert!(!w.walkable_for(1, 2, 2));
    assert!(!w.walkable_for_siege(1, 2, 2));
    assert!(!w.walkable(2, 2));
    assert!(!w.walkable_for(NO_OWNER, 2, 2));
    assert_eq!(w.wall(2, 2).unwrap().hp, f(220.0));
}

#[test]
fn buildings_and_nodes_block() {
    let mut w = meadow();
    w.set_house(1, 0, true);
    w.convert_house(2, 0, 1);
    w.set_cave(3, 0, true);
    w.set_hut(4, 0, 0, f(400.0));
    w.set_node(5, 0, Resource::Stone, 5);
    for x in 1..=5 {
        assert!(!w.walkable_for(0, x, 0), "{x}");
        assert!(!w.is_open_grass(x, 0), "{x}");
    }
    for x in 1..=4 {
        assert!(!w.walkable_for_siege(0, x, 0), "{x}");
    }
    assert!(w.walkable_for_siege(0, 5, 0));
    w.clear_node(5, 0);
    assert!(w.walkable(5, 0));
    w.set_house(1, 0, false);
    assert!(w.walkable(1, 0));
}

#[test]
fn bridges_make_water_walkable() {
    let mut c = Chunk::blank();
    c.tiles[li(4, 4)] = Tile::Water;
    let mut w = World::from_saved(1, vec![((0, 0), c)]);
    assert!(w.is_open_water(4, 4));
    assert!(!w.walkable(4, 4));
    w.set_bridge(4, 4, true);
    assert!(w.is_bridge(4, 4));
    assert!(w.walkable(4, 4));
    assert!(!w.is_open_water(4, 4));
}

#[test]
fn houses_change_hands() {
    let mut w = meadow();
    w.set_house(1, 1, true);
    w.convert_house(1, 1, 1);
    assert!(!w.is_house(1, 1));
    assert!(w.is_enemy_house(1, 1));
    w.rescan_enemy_houses();
    assert_eq!(*w.enemy_house_tiles(), vec![(1, 1)]);
    w.convert_house(1, 1, 0);
    assert!(w.is_house(1, 1));
    assert!(!w.is_enemy_house(1, 1));
    w.rescan_enemy_houses();
    assert!(w.enemy_house_tiles().is_empty());
}

#[test]
fn walls_nearby_change_hands() {
    let mut w = meadow();
    w.set_wall(4, 4, 1, f(100.0));
    w.set_wall(5, 0, 1, f(90.0));
    w.set_wall(-4, -4, 2, f(80.0));
    w.reown_walls_near(0, 0, 4, 1, 0);
    assert_eq!(w.wall(4, 4).unwrap().owner, 0);
    assert_eq!(w.wall(4, 4).unwrap().hp, f(100.0));
    assert_eq!(w.wall(5, 0).unwrap().owner, 1);
    assert_eq!(w.wall(-4, -4).unwrap().owner, 2);
    w.reown_walls_near(5, 0, -1, 1, 0);
    assert_eq!(w.wall(5, 0).unwrap().owner, 1);
}

#[test]
fn walls_and_huts_fall() {
    let mut w = meadow();
    w.set_wall(0, 0, 0, f(10.0));
    assert!(!w.damage_wall(0, 0, f(4.0)));
    assert_eq!(w.wall(0, 0).unwrap().hp, f(6.0));
    assert!(w.damage_wall(0, 0, f(6.0)));
    assert!(w.wall(0, 0).is_none());
    assert!(!w.damage_wall(0, 0, f(6.0)));

    w.set_node(1, 0, Resource::Wood, 5);
    w.set_hut(1, 0, 1, f(10.0));
    assert!(w.node(1, 0).is_none());
    assert!(w.add_hut_occupant(1, 0));
    assert!(w.add_hut_occupant(1, 0));
    assert!(!w.add_hut_occupant(2, 0));
    assert!(w.damage_hut(1, 0, f(4.0)).is_none());
    let razed = w.damage_hut(1, 0, f(6.0)).unwrap();
    assert_eq!((razed.owner, razed.occupants), (1, 2));
    assert!(w.hut(1, 0).is_none());
    assert!(w.damage_hut(1, 0, f(6.0)).is_none());

    w.set_hut(1, 0, 0, f(10.0));
    w.add_hut_occupant(1, 0);
    assert_eq!(*w.all_hut_tiles(), vec![(1, 0)]);
    assert_eq!(w.release_hut(1, 0), 1);
    assert_eq!(w.release_hut(1, 0), 0);
    assert_eq!(w.release_hut(7, 7), 0);
}

#[test]
fn nodes_run_dry() {
    let mut w = meadow();
    w.set_node(0, 0, Resource::Wood, 2);
    assert_eq!(w.deplete_node(0, 0), Some(Resource::Wood));
    assert_eq!(w.node(0, 0), Some(Node { kind: Resource::Wood, amount: 1 }));
    assert_eq!(w.deplete_node(0, 0), Some(Resource::Wood));
    assert_eq!(w.node(0, 0), None);
    assert_eq!(w.deplete_node(0, 0), None);
    assert_eq!(w.deplete_node(1000, 0), None);
}

#[test]
fn land_can_be_raised() {
    let mut c = Chunk::blank();
    c.tiles[li(3, 4)] = Tile::Water;
    let mut w = World::from_saved(5, vec![((0, 0), c)]);
    w.set_bridge(3, 4, true);
    w.raise_land(3, 4);
    assert_eq!(w.tile(3, 4), Tile::Grass);
    assert!(!w.is_bridge(3, 4));
    assert!(w.is_open_grass(3, 4));
}

#[test]
fn camps_are_spaced_out() {
    let mut w = meadow();
    w.set_node(-3, -3, Resource::Wood, 5);
    w.plant_camp((0, 0), 4);
    assert_eq!(*w.enemy_house_tiles(), vec![(-3, -3), (0, -3), (3, -3), (-3, 0)]);
    assert!(w.is_enemy_house(0, -3));
    assert!(w.node(-3, -3).is_none());
    // At sea there is nowhere to build.
    let mut c = Chunk::blank();
    for i in 0..CHUNK_TILES {
        c.tiles[i] = Tile::Water;
    }
    let mut w = World::from_saved(5, vec![((0, 0), c)]);
    w.plant_camp((16, 16), 4);
    assert!(w.enemy_house_tiles().is_empty());
}

#[test]
fn edits_stay_on_their_tile() {
    let mut w = meadow();
    let mut before: Vec<Option<Cell>> = Vec::new();
    for x in -3..=3 {
        before.push(w.cell(x, 1));
    }
    w.set_cave(0, 1, true);
    for x in -3..=3i32 {
        if x != 0 {
            assert_eq!(w.cell(x, 1), before[(x + 3) as usize]);
        }
    }
    assert!(w.cell(0, 1).unwrap().cave);
}
