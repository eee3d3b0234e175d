//! Saving a game and taking it up again.

use kingdom::chunk::{Chunk, Node, Resource};
use kingdom::float::F32;
use kingdom::game::{BuildMode, CamState, Game, Sapling};
use kingdom::rng::Rng;
use kingdom::save::{anim_u8, dir_u8, faction_u8, job_u8, wf32, wi32, wu32, wu8, Reader};
use kingdom::unit::{Anim, Dir, Entity, Faction, GatherPriority, Job, Priority};
use kingdom::vec2::Vec2;
use kingdom::world::World;

fn f(v: f32) -> F32 {
    F32 { bits: v.to_bits() }
}

fn cam() -> CamState {
    CamState { cx: f(1.25), cy: f(-3.5), view_height: f(40.0) }
}

/// A game with a bit of everything.
fn busy() -> Game {
    let mut world = World::from_saved(-77, vec![((0, 0), Chunk::blank()), ((-1, 2), Chunk::blank())]);
    world.set_house(1, 1, true);
    world.convert_house(2, 2, 1);
    world.rescan_enemy_houses();
    world.set_cave(3, 3, true);
    world.set_wall(4, 4, 1, f(33.5));
    world.set_hut(5, 5, 0, f(120.0));
    world.add_hut_occupant(5, 5);
    world.set_node(6, 6, Resource::Wood, 3);
    world.set_node(-4, 70, Resource::Stone, 1000);
    let mut g = Game {
        world,
        entities: Vec::new(),
        wood: 123456,
        stone: 7,
        build_mode: BuildMode::Bridge,
        priority: Priority::Military,
        gather_priority: GatherPriority::Stone,
        enemies_defeated: 9,
        units_lost: 4,
        rally_point: Some(Vec2::new(f(1.0), f(1.0))),
        player_house_tiles: vec![(1, 1)],
        cave_tiles: vec![(3, 3)],
        hut_tiles: vec![(5, 5)],
        hut_orders: vec![(6, 6)],
        saplings: vec![Sapling { tile: (7, 7), grow: f(0.5) }],
        player_bridges: vec![(8, -8), (9, -9)],
        enemy_spawn_timer: f(1.0),
        player_spawn_timer: f(2.0),
        player_spawn_cycle: 5,
        enemy_spawn_cycle: 6,
        rng: Rng::new(1),
    };
    let mut e = Entity::new(Faction::Enemy, Job::Knight, (2, 1));
    e.hp = f(12.5);
    e.facing = Dir::Left;
    e.anim = Anim::Act;
    e.anim_time = f(3.0);
    e.set_path(vec![(3, 1)]);
    e.target_node = Some((6, 6));
    g.entities.push(e);
    g.entities.push(Entity::new(Faction::Player, Job::Farmer, (-3, 65)));
    g
}

/// Where the count of eight-byte records stands, behind the two units.
const RECORDS: usize = 44 + 2 * 20;

/// Records that the session takes up: its title, its length and the mode, the clocks, a
/// flag, one hut, one sapling, and two units, one of them with a step to take.
const SESSION: usize = (24 + 24 + 9 + 4 + 8 + 4 + 12 + 2 * 48 + 8 + 7) / 8;

/// The save of the busy game with its session taken out.
fn without_session() -> Vec<u8> {
    let good = busy().to_bytes(cam());
    let mut plain = good[..RECORDS].to_vec();
    wu32(&mut plain, 2);
    plain.extend_from_slice(&good[RECORDS + 4 + 8 * SESSION..]);
    plain
}

#[test]
fn a_save_starts_with_its_name() {
    let b = busy().to_bytes(cam());
    assert_eq!(&b[0..4], b"KGDM");
    assert_eq!(b[4], 7);
    assert_eq!(i32::from_le_bytes([b[5], b[6], b[7], b[8]]), -77);
    assert_eq!(u32::from_le_bytes([b[9], b[10], b[11], b[12]]), 123456);
    assert_eq!(b[25], 1);
    assert_eq!(b[26], 1);
    assert_eq!(b[27], 2);
    let mut r = Reader { d: &b, p: RECORDS };
    assert_eq!(r.u32(), Some(SESSION as u32 + 2));
    assert_eq!(&b[RECORDS + 4..RECORDS + 16], b"KGDM SESSION");
    assert_eq!(b.len(), RECORDS + 4 + 8 * (SESSION + 2) + 4 + 2 * 18440);
}

#[test]
fn codes_are_as_agreed() {
    assert_eq!([faction_u8(Faction::Player), faction_u8(Faction::Enemy)], [0, 1]);
    assert_eq!([job_u8(Job::Farmer), job_u8(Job::Knight)], [0, 1]);
    assert_eq!(
        [dir_u8(Dir::Down), dir_u8(Dir::Up), dir_u8(Dir::Left), dir_u8(Dir::Right)],
        [0, 1, 2, 3]
    );
    assert_eq!([anim_u8(Anim::Idle), anim_u8(Anim::Walk), anim_u8(Anim::Act)], [0, 1, 2]);
}

#[test]
fn what_was_saved_comes_back() {
    let g = busy();
    let (back, c) = Game::from_bytes(&g.to_bytes(cam())).unwrap();
    assert_eq!(c, cam());
    assert_eq!(back.world.seed(), -77);
    assert_eq!((back.wood, back.stone), (123456, 7));
    assert_eq!((back.enemies_defeated, back.units_lost), (9, 4));
    assert_eq!(back.build_mode, BuildMode::Bridge);
    assert_eq!(back.priority, Priority::Military);
    assert_eq!(back.gather_priority, GatherPriority::Stone);
    assert_eq!(back.player_house_tiles, vec![(1, 1)]);
    assert_eq!(*back.world.enemy_house_tiles(), vec![(2, 2)]);
    assert_eq!(back.cave_tiles, vec![(3, 3)]);
    assert_eq!(back.hut_tiles, vec![(5, 5)]);
    assert_eq!(back.player_bridges, vec![(8, -8), (9, -9)]);
    assert_eq!(back.entities.len(), 2);
    let e = &back.entities[0];
    assert_eq!((e.faction, e.job, e.facing, e.anim), (Faction::Enemy, Job::Knight, Dir::Left, Anim::Act));
    assert_eq!((e.pos, e.hp, e.max_hp), (g.entities[0].pos, f(12.5), f(60.0)));
    for y in 0..32 {
        for x in 0..32 {
            assert_eq!(back.world.cell(x, y), g.world.cell(x, y), "{x},{y}");
        }
    }
}

#[test]
fn everyone_goes_on_with_what_they_were_about() {
    let mut g = busy();
    g.entities[1].mine_target = Some((3, 3));
    g.entities[1].build_site = Some((-8, 9));
    g.entities[1].harvest_timer = f(0.75);
    g.entities[1].repath = f(0.25);
    g.entities[1].sheltered = true;
    g.entities[1].set_path(vec![(1, 2), (-3, 4), (5, -6)]);
    g.entities[1].path_cursor = 2;
    g.rng.next_u32();
    let (back, _) = Game::from_bytes(&g.to_bytes(cam())).unwrap();
    assert_eq!((back.player_spawn_cycle, back.enemy_spawn_cycle), (5, 6));
    assert_eq!((back.player_spawn_timer, back.enemy_spawn_timer), (f(2.0), f(1.0)));
    assert_eq!(back.rng.state(), g.rng.state());
    let e = &back.entities[0];
    assert_eq!(e.path, vec![(3, 1)]);
    assert_eq!(e.path_cursor, 0);
    assert_eq!(e.anim_time, f(3.0));
    assert_eq!(e.target_node, Some((6, 6)));
    assert!(!e.sheltered);
    let e = &back.entities[1];
    assert_eq!((e.target_node, e.mine_target, e.build_site), (None, Some((3, 3)), Some((-8, 9))));
    assert_eq!((e.harvest_timer, e.repath), (f(0.75), f(0.25)));
    assert_eq!((e.path.clone(), e.path_cursor), (vec![(1, 2), (-3, 4), (5, -6)], 2));
    assert!(e.sheltered);
}

#[test]
fn a_loaded_game_goes_on_like_the_one_saved() {
    let mut g = busy();
    g.world.set_node(-4, 70, Resource::Stone, 10);
    let (mut back, _) = Game::from_bytes(&g.to_bytes(cam())).unwrap();
    for _ in 0..40 {
        g.update(f(0.1), (-20, -20, 40, 40));
        back.update(f(0.1), (-20, -20, 40, 40));
    }
    assert_eq!(back.to_bytes(cam()), g.to_bytes(cam()));
}

#[test]
fn rich_nodes_are_cut_down_to_a_byte() {
    let (back, _) = Game::from_bytes(&busy().to_bytes(cam())).unwrap();
    assert_eq!(back.world.node(-4, 70), Some(Node { kind: Resource::Stone, amount: 255 }));
}

#[test]
fn saving_again_writes_the_same() {
    let once = busy().to_bytes(cam());
    let (back, c) = Game::from_bytes(&once).unwrap();
    assert_eq!(back.to_bytes(c), once);
}

#[test]
fn every_tool_comes_back() {
    let modes = [
        BuildMode::House,
        BuildMode::Bridge,
        BuildMode::Mine,
        BuildMode::Wall,
        BuildMode::Hut,
        BuildMode::Rally,
    ];
    for mode in modes {
        let mut g = busy();
        g.build_mode = mode;
        let b = g.to_bytes(cam());
        assert_eq!(b[25], (mode == BuildMode::Bridge) as u8);
        assert_eq!(Game::from_bytes(&b).unwrap().0.build_mode, mode);
    }
    // An unknown tool in the session is the house.
    let mut b = busy().to_bytes(cam());
    assert_eq!(b[RECORDS + 24], 1);
    b[RECORDS + 24] = 99;
    assert_eq!(Game::from_bytes(&b).unwrap().0.build_mode, BuildMode::House);
}

#[test]
fn flags_orders_and_saplings_come_back() {
    let mut g = busy();
    g.build_mode = BuildMode::Wall;
    g.rally_point = Some(Vec2::new(f(-7.25), f(3.5)));
    g.hut_orders = vec![(3, 4)];
    let (back, _) = Game::from_bytes(&g.to_bytes(cam())).unwrap();
    assert_eq!(back.build_mode, BuildMode::Wall);
    assert_eq!(back.rally_point, Some(Vec2::new(f(-7.25), f(3.5))));
    assert_eq!(*back.hut_orders(), vec![(3, 4)]);
    assert_eq!(back.saplings.len(), 1);
    assert_eq!((back.saplings[0].tile, back.saplings[0].grow), ((7, 7), f(0.5)));
    // Orders without a flag.
    g.rally_point = None;
    g.hut_orders = vec![(-3, 4), (5, -6)];
    g.saplings.clear();
    let (back, _) = Game::from_bytes(&g.to_bytes(cam())).unwrap();
    assert_eq!(back.rally_point, None);
    assert_eq!(*back.hut_orders(), vec![(-3, 4), (5, -6)]);
    assert!(back.saplings.is_empty());
}

#[test]
fn without_a_session_everyone_is_at_rest() {
    let plain = without_session();
    assert_eq!(plain.len(), RECORDS + 4 + 2 * 8 + 4 + 2 * 18440);
    let (back, c) = Game::from_bytes(&plain).unwrap();
    assert_eq!(c, cam());
    assert_eq!(back.build_mode, BuildMode::Bridge);
    assert_eq!(back.player_bridges, vec![(8, -8), (9, -9)]);
    assert_eq!(back.rally_point, None);
    assert!(back.hut_orders().is_empty());
    assert!(back.saplings_iter().is_empty());
    assert_eq!((back.player_spawn_cycle, back.enemy_spawn_cycle), (0, 0));
    assert_eq!((back.player_spawn_timer, back.enemy_spawn_timer), (f(7.0), f(9.0)));
    assert_eq!(back.rng.state(), Rng::new(-77i32 as u64 ^ 0xD1B5_4A32_D192_ED03).state());
    let e = &back.entities[0];
    assert!(e.path_done());
    assert_eq!(e.anim_time, f(0.0));
    assert!(e.target_node.is_none());
    for y in 0..32 {
        for x in 0..32 {
            assert_eq!(back.world.cell(x, y), busy().world.cell(x, y), "{x},{y}");
        }
    }
}

#[test]
fn without_a_session_the_mode_is_bridge_or_house() {
    let mut plain = without_session();
    for code in 0..=255u8 {
        plain[25] = code;
        let (back, _) = Game::from_bytes(&plain).unwrap();
        let mode = if code == 1 { BuildMode::Bridge } else { BuildMode::House };
        assert_eq!(back.build_mode, mode, "{code}");
    }
}

#[test]
fn a_session_that_is_not_whole_is_none() {
    let good = busy().to_bytes(cam());
    // One letter of the title; more records than there are; more huts than fit.
    for (at, byte) in [(RECORDS + 4, 0), (RECORDS + 20, 200), (RECORDS + 28 + 33, 200)] {
        let mut b = good.clone();
        b[at] = byte;
        let (back, _) = Game::from_bytes(&b).unwrap();
        assert_eq!(back.rally_point, None);
        assert_eq!(back.player_bridges.len(), SESSION + 2);
        assert_eq!(back.player_bridges[SESSION..], [(8, -8), (9, -9)]);
    }
}

#[test]
fn no_beginning_of_a_save_is_one() {
    let good = busy().to_bytes(cam());
    for n in 0..RECORDS + 4 + 8 * (SESSION + 2) + 4 + 64 {
        assert!(Game::from_bytes(&good[..n]).is_none(), "{n}");
    }
    for n in 1..300 {
        assert!(Game::from_bytes(&good[..good.len() - n]).is_none(), "{n}");
    }
}

#[test]
fn numbers_are_read_as_they_were_written() {
    let mut b = Vec::new();
    for v in [0, 1, -1, 77, -77, i32::MAX, i32::MIN] {
        wi32(&mut b, v);
    }
    assert_eq!(b[8..12], [255, 255, 255, 255]);
    assert_eq!(b[16..20], [0xB3, 255, 255, 255]);
    wu8(&mut b, 9);
    wu32(&mut b, 0xDEAD_BEEF);
    wf32(&mut b, f(-0.5));
    let mut r = Reader { d: &b, p: 0 };
    for v in [0, 1, -1, 77, -77, i32::MAX, i32::MIN] {
        assert_eq!(r.i32(), Some(v));
    }
    assert_eq!(r.u8(), Some(9));
    assert_eq!(r.u32(), Some(0xDEAD_BEEF));
    assert_eq!(r.float(), Some(f(-0.5)));
    assert_eq!(r.p, b.len());
    assert_eq!((r.u8(), r.u32(), r.i32(), r.float()), (None, None, None, None));
    assert_eq!(r.p, b.len());
    let mut r = Reader { d: &b, p: b.len() - 3 };
    assert_eq!(r.i32(), None);
    assert_eq!(r.u8(), Some(b[b.len() - 3]));
    let mut r = Reader { d: &b, p: usize::MAX };
    assert_eq!(r.u32(), None);
}

#[test]
fn foreign_files_are_refused() {
    assert!(Game::from_bytes(&[]).is_none());
    assert!(Game::from_bytes(b"KGD").is_none());
    assert!(Game::from_bytes(b"PK\x03\x04 and so on").is_none());
    let good = busy().to_bytes(cam());
    for i in 0..4 {
        let mut bad = good.clone();
        bad[i] ^= 1;
        assert!(Game::from_bytes(&bad).is_none());
    }
}

#[test]
fn other_versions_are_refused() {
    let mut b = busy().to_bytes(cam());
    for v in [0u8, 6, 8, 255] {
        b[4] = v;
        assert!(Game::from_bytes(&b).is_none());
    }
}

#[test]
fn cut_files_are_refused() {
    let good = busy().to_bytes(cam());
    for n in [4, 5, 20, 43, 44, 60, 84, 90, 104, 108, 200, 18547, good.len() - 1] {
        assert!(Game::from_bytes(&good[..n]).is_none(), "{n}");
    }
    assert!(Game::from_bytes(&good).is_some());
}

#[test]
fn counts_that_promise_too_much_are_refused() {
    let mut b = busy().to_bytes(cam());
    for i in 40..44 {
        b[i] = 255;
    }
    assert!(Game::from_bytes(&b).is_none());
}

#[test]
fn a_new_game_survives_a_save() {
    let g = Game::new(12);
    let (back, _) = Game::from_bytes(&g.to_bytes(cam())).unwrap();
    assert_eq!(back.world.chunks_iter().len(), g.world.chunks_iter().len());
    assert_eq!(back.entities.len(), g.entities.len());
    for (coord, chunk) in g.world.chunks_iter() {
        for i in [0usize, 17, 500, 1023] {
            let (x, y) = kingdom::chunk::place(coord.0, coord.1, i);
            assert_eq!(back.world.cell(x, y), Some(chunk.cell(i)));
        }
    }
}
