//! What the player sees and does: menu, camera, pictures.

use image::{ImageFormat, Rgba, RgbaImage};
use kingdom::atlas::{bind, build, Drawings, Textures, UvRect};
use kingdom::camera::{Camera, Keys};
use kingdom::chunk::{li, Chunk, Resource, Tile};
use kingdom::draw::{draw, sprite_frame, Picture, Quad, Sheet, Sprite};
use kingdom::float::F32;
use kingdom::game::{BuildMode, Game, Sapling};
use kingdom::packing::pack;
use kingdom::pixels::{assemble, crop, fill, load, pad_to_tile, paste, white_pixel, Image};
use kingdom::seed::{parse_seed, pseudo_random_seed};
use kingdom::session::{Action, MenuState, Request, Scene, Session};
use kingdom::unit::{Anim, Dir, Entity, Faction, Job};
use kingdom::vec2::Vec2;
use kingdom::world::World;

const STILL: Keys = Keys { up: false, down: false, left: false, right: false };

fn f(v: f32) -> F32 {
    F32 { bits: v.to_bits() }
}

fn v(x: f32, y: f32) -> Vec2 {
    Vec2::new(f(x), f(y))
}

// --- seeds --------------------------------------------------------------------------

#[test]
fn numbers_are_seeds() {
    assert_eq!(parse_seed("42", 9), 42);
    assert_eq!(parse_seed("  -7\t", 9), -7);
    assert_eq!(parse_seed("+5", 9), 5);
    assert_eq!(parse_seed("0", 9), 0);
    assert_eq!(parse_seed("2147483647", 9), i32::MAX);
    assert_eq!(parse_seed("-2147483648", 9), i32::MIN);
    assert_eq!(parse_seed("007", 9), 7);
}

/// The hash of a text, a byte at a time.
fn hash(t: &str) -> i32 {
    let mut h: u32 = 2166136261;
    for b in t.bytes() {
        h ^= b as u32;
        h = h.wrapping_mul(16777619);
    }
    h as i32
}

#[test]
fn any_other_text_is_hashed() {
    for t in ["my castle", "a", "2147483648", "-2147483649", "-", "+", "1.5", "12a", "é☃𝄞"] {
        assert_eq!(parse_seed(t, 9), hash(t), "{t}");
    }
    assert_eq!(parse_seed("a", 9), -468965076);
    assert_eq!(parse_seed("\u{a0} my castle\u{2003}\n", 9), hash("my castle"));
}

#[test]
fn a_blank_field_rolls_the_dice() {
    assert_eq!(parse_seed("", 9), 9);
    assert_eq!(parse_seed(" \t\r\n ", -3), -3);
}

#[test]
fn the_clock_gives_a_seed() {
    assert_eq!(pseudo_random_seed(0), 0);
    assert_eq!(pseudo_random_seed(1), -1640531535);
    for t in [1u64, 1000, 1_700_000_000_000, u64::MAX] {
        let bits = t.wrapping_mul(2654435761);
        assert_eq!(pseudo_random_seed(t), (bits ^ (bits >> 32)) as i32);
    }
}

// --- camera -------------------------------------------------------------------------

#[test]
fn the_view_has_edges() {
    let mut c = Camera::new(v(10.0, 20.0));
    assert_eq!((c.view_height, c.aspect), (f(28.0), f(1.0)));
    c.resize(1600, 800);
    assert_eq!(c.aspect, f(2.0));
    assert_eq!(c.half_extents(), v(28.0, 14.0));
    assert_eq!(c.edges(), (f(-18.0), f(38.0), f(6.0), f(34.0)));
    assert_eq!(c.visible_bounds(), (-19, 5, 39, 35));
    assert_eq!(c.sim_bounds(), (-43, -19, 63, 59));
    c.resize(5, 0);
    assert_eq!(c.aspect, f(5.0));
}

#[test]
fn the_edges_of_the_world_hold() {
    let mut c = Camera::new(v(3.0e9, -3.0e9));
    c.resize(100, 100);
    assert_eq!(c.visible_bounds(), (i32::MAX - 1, i32::MIN, i32::MAX, i32::MIN + 1));
}

#[test]
fn pixels_point_at_tiles() {
    let mut c = Camera::new(v(10.0, 20.0));
    c.resize(1600, 800);
    assert_eq!(c.screen_to_world(f(0.0), f(0.0), f(1600.0), f(800.0)), v(-18.0, 6.0));
    assert_eq!(c.screen_to_world(f(800.0), f(400.0), f(1600.0), f(800.0)), v(10.0, 20.0));
    assert_eq!(c.screen_to_world(f(1600.0), f(800.0), f(1600.0), f(800.0)), v(38.0, 34.0));
}

#[test]
fn zooming_has_limits() {
    let mut c = Camera::new(v(0.0, 0.0));
    c.scroll(f(1.0));
    assert_eq!(c.view_height, f(28.0 * 0.9));
    c.zoom(f(2.0));
    c.scroll(f(-1.0));
    assert_eq!(c.view_height, f(28.0f32 * 0.9 * 2.0 * 1.1));
    for _ in 0..40 {
        c.scroll(f(0.0));
    }
    assert_eq!(c.view_height, f(80.0));
    for _ in 0..60 {
        c.scroll(f(0.5));
    }
    assert_eq!(c.view_height, f(8.0));
}

#[test]
fn keys_pan_the_view() {
    let mut c = Camera::new(v(0.0, 0.0));
    c.pan(STILL, f(0.1));
    assert_eq!(c.center, v(0.0, 0.0));
    c.pan(Keys { up: true, down: true, ..STILL }, f(0.1));
    assert_eq!(c.center, v(0.0, 0.0));
    let step = 28.0f32 * 0.9 * 0.1;
    c.pan(Keys { right: true, ..STILL }, f(0.1));
    assert_eq!(c.center, v(step, 0.0));
    let mut c = Camera::new(v(0.0, 0.0));
    c.pan(Keys { left: true, up: true, ..STILL }, f(0.1));
    let d = -1.0f32 * (1.0 / 2.0f32.sqrt()) * step;
    assert_eq!(c.center, v(d, d));
}

// --- pictures -----------------------------------------------------------------------

/// A picture whose bytes tell where they are.
fn marked(w: u32, h: u32, mark: u8) -> Image {
    let mut i = fill(w, h, mark);
    for k in 0..i.rgba.len() {
        i.rgba[k] = i.rgba[k].wrapping_add(k as u8);
    }
    i
}

fn pixel(i: &Image, x: u32, y: u32) -> Vec<u8> {
    let at = 4 * (y * i.width + x) as usize;
    i.rgba[at..at + 4].to_vec()
}

#[test]
fn pictures_are_cropped_and_pasted() {
    let a = marked(4, 3, 0);
    let c = crop(&a, 1, 1, 2, 2).unwrap();
    assert_eq!((c.width, c.height), (2, 2));
    assert_eq!(pixel(&c, 0, 0), pixel(&a, 1, 1));
    assert_eq!(pixel(&c, 1, 1), pixel(&a, 2, 2));
    assert!(crop(&a, 3, 0, 2, 2).is_none());
    assert!(crop(&a, u32::MAX, 0, 2, 2).is_none());
    let mut b = fill(5, 5, 9);
    paste(&mut b, &c, 3, 2);
    assert_eq!(pixel(&b, 3, 2), pixel(&a, 1, 1));
    assert_eq!(pixel(&b, 4, 3), pixel(&a, 2, 2));
    assert_eq!(pixel(&b, 2, 2), vec![9, 9, 9, 9]);
    assert_eq!(pixel(&b, 4, 4), vec![9, 9, 9, 9]);
    assert_eq!(white_pixel().rgba, vec![255, 255, 255, 255]);
}

#[test]
fn small_sprites_sit_on_their_tile() {
    let a = marked(14, 13, 1);
    let p = pad_to_tile(&a);
    assert_eq!((p.width, p.height), (16, 16));
    assert_eq!(pixel(&p, 1, 3), pixel(&a, 0, 0));
    assert_eq!(pixel(&p, 14, 15), pixel(&a, 13, 12));
    assert_eq!(pixel(&p, 0, 15), vec![0, 0, 0, 0]);
    assert_eq!(pixel(&p, 5, 2), vec![0, 0, 0, 0]);
    let p = pad_to_tile(&marked(17, 3, 1));
    assert!(p.rgba.iter().all(|b| *b == 0));
}

/// A file with one colour, but for a spot at the top left.
fn png(w: u32, h: u32, colour: [u8; 4]) -> Vec<u8> {
    let mut i = RgbaImage::from_pixel(w, h, Rgba(colour));
    i.put_pixel(0, 0, Rgba([1, 2, 3, 255]));
    let mut out = std::io::Cursor::new(Vec::new());
    i.write_to(&mut out, ImageFormat::Png).unwrap();
    out.into_inner()
}

#[test]
fn files_are_read() {
    let i = load(&png(3, 2, [10, 20, 30, 40])).unwrap();
    assert_eq!((i.width, i.height), (3, 2));
    assert_eq!(pixel(&i, 0, 0), vec![1, 2, 3, 255]);
    assert_eq!(pixel(&i, 2, 1), vec![10, 20, 30, 40]);
    assert!(load(b"not a picture").is_none());
    assert!(load(&png(3, 2, [0, 0, 0, 0])[..40]).is_none());
    assert!(assemble(None).is_none());
    assert!(assemble(Some((2, 2, vec![0; 15]))).is_none());
    assert!(assemble(Some((2, 2, vec![0; 16]))).is_some());
}

fn textures() -> Textures {
    let t = |n: u8| png(16, 16, [n, 0, 0, 255]);
    let s = |n: u8| png(80, 192, [0, n, 0, 255]);
    Textures {
        grass: t(1),
        water: t(2),
        houses: png(48, 48, [3, 0, 0, 255]),
        enemy_houses: png(48, 48, [4, 0, 0, 255]),
        bridge: t(5),
        wall: t(6),
        tree: png(14, 14, [7, 0, 0, 255]),
        rock: png(14, 12, [8, 0, 0, 255]),
        rally: t(9),
        cave: t(10),
        hut: t(11),
        enemy_hut: t(12),
        ally_hut: t(17),
        farmer: s(13),
        knight: s(14),
        enemy_farmer: s(15),
        enemy_knight: s(16),
    }
}

#[test]
fn the_atlas_holds_every_picture() {
    let a = build(&textures()).unwrap();
    assert_eq!((a.width, a.height), (512, 256));
    assert_eq!(a.rgba.len(), 4 * 512 * 256);
    let image = Image { width: a.width, height: a.height, rgba: a.rgba.clone() };
    let corner = |r: UvRect| {
        let x = f32::from_bits(r.u_max.bits) * 512.0;
        let y = f32::from_bits(r.v_max.bits) * 256.0;
        pixel(&image, x as u32 - 1, y as u32 - 1)
    };
    assert_eq!(corner(a.uv(Sprite::White)), vec![255, 255, 255, 255]);
    assert_eq!(corner(a.uv(Sprite::Grass)), vec![1, 0, 0, 255]);
    assert_eq!(corner(a.uv(Sprite::House)), vec![3, 0, 0, 255]);
    assert_eq!(corner(a.uv(Sprite::EnemyHut)), vec![12, 0, 0, 255]);
    assert_eq!(corner(a.uv(Sprite::AllyHut)), vec![17, 0, 0, 255]);
    // Between pictures, and at the edges, it is transparent.
    assert_eq!(pixel(&image, 0, 0), vec![0, 0, 0, 0]);
    assert_eq!(pixel(&image, 81, 5), vec![0, 0, 0, 0]);
    assert_eq!(pixel(&image, 82, 5), vec![0, 14, 0, 255]);
    assert_eq!(pixel(&image, 511, 255), vec![0, 0, 0, 0]);
    // The tree leaves a pixel free on the right of its tile.
    assert_eq!(corner(a.uv(Sprite::Tree)), vec![0, 0, 0, 0]);
    assert_eq!(corner(a.frame_uv(Sheet::EnemyKnight, 4, 11)), vec![0, 16, 0, 255]);
    // The sheets are tallest, so the farmer's is first.
    let r = a.frame_uv(Sheet::Farmer, 2, 3);
    let (u0, u1) = (1.0f32 / 512.0, 81.0f32 / 512.0);
    let (v0, v1) = (1.0f32 / 256.0, 193.0f32 / 256.0);
    let (fw, fh) = ((u1 - u0) / 5.0, (v1 - v0) / 12.0);
    let (x, y) = (u0 + 2.0 * fw, v0 + 3.0 * fh);
    let want = UvRect { u_min: f(x), v_min: f(y), u_max: f(x + fw), v_max: f(y + fh) };
    assert_eq!(r, want);
}

#[test]
fn a_missing_picture_means_no_atlas() {
    let mut t = textures();
    t.rally = Vec::new();
    assert!(build(&t).is_none());
    let mut t = textures();
    t.houses = png(15, 48, [0, 0, 0, 255]);
    assert!(build(&t).is_none());
    let mut t = textures();
    t.knight = png(512, 8, [0, 0, 0, 255]);
    assert!(build(&t).is_none());
    let none = Drawings {
        grass: None,
        water: None,
        houses: None,
        enemy_houses: None,
        bridge: None,
        wall: None,
        tree: None,
        rock: None,
        rally: None,
        cave: None,
        hut: None,
        enemy_hut: None,
        ally_hut: None,
        farmer: None,
        knight: None,
        enemy_farmer: None,
        enemy_knight: None,
    };
    assert!(bind(none).is_none());
}

#[test]
fn sprites_are_shelved_tallest_first() {
    let l = pack(&vec![(16, 16), (300, 40), (300, 20), (16, 40)]).unwrap();
    let order: Vec<(usize, u32, u32)> =
        l.placements.iter().map(|p| (p.sprite, p.x, p.y)).collect();
    assert_eq!(order, vec![(1, 1, 1), (3, 302, 1), (2, 1, 42), (0, 302, 42)]);
    assert_eq!(l.height, 64);
    assert!(pack(&vec![(512, 1)]).is_none());
    assert!(pack(&vec![(511, 1)]).is_some());
    assert_eq!(pack(&vec![(1, 0x10_0000)]).unwrap().height, 0x20_0000);
    assert_eq!(pack(&vec![(1, 0x7fff_fffe)]).unwrap().height, 0x8000_0000);
    assert!(pack(&vec![(1, 0x7fff_ffff)]).is_none());
    assert_eq!(pack(&vec![]).unwrap().height, 2);
}

#[test]
fn frames_follow_the_animation() {
    let mut e = Entity::new(Faction::Player, Job::Farmer, (0, 0));
    assert_eq!(sprite_frame(&e), Picture::Frame(Sheet::Farmer, 0, 0));
    e.anim = Anim::Walk;
    e.facing = Dir::Left;
    e.anim_time = f(0.8);
    assert_eq!(sprite_frame(&e), Picture::Frame(Sheet::Farmer, 1, 3));
    e.anim = Anim::Act;
    e.facing = Dir::Right;
    assert_eq!(sprite_frame(&e), Picture::Frame(Sheet::Farmer, 0, 10));
    let mut k = Entity::new(Faction::Enemy, Job::Knight, (0, 0));
    k.anim = Anim::Act;
    k.facing = Dir::Up;
    k.anim_time = f(0.4);
    assert_eq!(sprite_frame(&k), Picture::Frame(Sheet::EnemyKnight, 3, 5));
}

fn scene() -> Game {
    let mut c = Chunk::blank();
    c.tiles[li(1, 0)] = Tile::Water;
    let mut g = Game::new(3);
    g.entities.clear();
    g.world = World::from_saved(3, vec![((0, 0), c)]);
    g
}

fn pictures(quads: &Vec<Quad>) -> Vec<Picture> {
    quads.iter().map(|q| q.picture).collect()
}

#[test]
fn land_is_drawn_with_what_stands_on_it() {
    let mut g = scene();
    g.world.set_bridge(1, 0, true);
    g.world.set_node(2, 0, Resource::Stone, 5);
    g.world.set_wall(0, 1, 1, f(1.0));
    g.world.set_hut(1, 1, 1, f(1.0));
    g.world.convert_house(2, 1, 1);
    let s = |x: Sprite| Picture::Still(x);
    let quads = draw(&g, (0, 0, 2, 1));
    assert_eq!(
        pictures(&quads),
        vec![
            s(Sprite::Grass),
            s(Sprite::Water),
            s(Sprite::Bridge),
            s(Sprite::Grass),
            s(Sprite::Rock),
            s(Sprite::Grass),
            s(Sprite::Wall),
            s(Sprite::Grass),
            s(Sprite::EnemyHut),
            s(Sprite::Grass),
            s(Sprite::EnemyHouse),
        ]
    );
    assert_eq!(quads[1].pos, v(1.0, 0.0));
    assert_eq!(quads[6].tint.g, f(0.55));
    assert_eq!(quads[4].tint.g, f(1.0));
}

#[test]
fn what_the_allies_built_is_green() {
    let mut g = scene();
    g.world.set_wall(0, 0, 2, f(1.0));
    g.world.set_hut(2, 0, 2, f(1.0));
    let quads = draw(&g, (0, 0, 2, 0));
    assert_eq!(quads[1].picture, Picture::Still(Sprite::Wall));
    let t = quads[1].tint;
    assert_eq!((t.r, t.g, t.b, t.a), (f(0.55), f(1.0), f(0.6), f(1.0)));
    assert_eq!(quads[4].picture, Picture::Still(Sprite::AllyHut));
}

#[test]
fn only_the_wounded_have_bars() {
    let mut g = scene();
    g.entities.push(Entity::new(Faction::Player, Job::Farmer, (0, 0)));
    g.entities.push(Entity::new(Faction::Enemy, Job::Knight, (3, 0)));
    g.entities.push(Entity::new(Faction::Player, Job::Knight, (5, 0)));
    let was = draw(&g, (0, 0, 0, 0));
    assert_eq!(was.len(), 1 + 3);
    g.entities[1].hp = f(30.0);
    let now = draw(&g, (0, 0, 0, 0));
    assert_eq!(now.len(), was.len() + 2);
    assert_eq!(now[..3], was[..3]);
    assert_eq!(now[3].picture, Picture::Still(Sprite::White));
    assert_eq!(now[4].picture, Picture::Still(Sprite::White));
    assert_eq!(now[5..], was[3..]);
}

#[test]
fn people_are_drawn_on_top() {
    let mut g = scene();
    g.entities.push(Entity::new(Faction::Enemy, Job::Farmer, (0, 0)));
    g.entities[0].hp = f(11.0);
    g.saplings.push(Sapling { tile: (5, 5), grow: f(0.5) });
    g.hut_orders.push((6, 6));
    g.rally_point = Some(v(7.5, 7.5));
    let quads = draw(&g, (0, 0, 0, 0));
    assert_eq!(quads.len(), 1 + 1 + 3 + 1 + 1);
    let size = 0.3f32 + 0.7 * 0.5;
    assert_eq!(quads[1].size, v(size, size));
    assert_eq!(quads[1].pos, v(5.0 + (1.0 - size) * 0.5, 5.0 + (1.0 - size)));
    assert_eq!(quads[2].pos, v(0.0, 0.0));
    assert_eq!(quads[3].size, v(0.8, 0.12));
    assert_eq!(quads[4].size, v(0.8 * 0.5, 0.12));
    assert_eq!(quads[4].pos, v(0.5 - 0.8 / 2.0, 0.5 - 0.72));
    assert_eq!(quads[4].tint.r, f(0.9));
    assert_eq!(quads[5].picture, Picture::Still(Sprite::Hut));
    assert_eq!(quads[5].tint.a, f(0.4));
    assert_eq!(quads[6].picture, Picture::Still(Sprite::Rally));
    assert_eq!(quads[6].pos, v(7.0, 7.0));
}

#[test]
fn crowds_are_drawn_up_to_a_point() {
    let mut g = scene();
    for _ in 0..12 {
        g.entities.push(Entity::new(Faction::Player, Job::Farmer, (0, 0)));
    }
    g.entities.push(Entity::new(Faction::Player, Job::Knight, (0, 0)));
    assert_eq!(draw(&g, (0, 0, 0, 0)).len(), 1 + 8 + 1);
}

// --- sessions -----------------------------------------------------------------------

#[test]
fn a_session_starts_at_the_menu() {
    let mut s = Session::new();
    assert_eq!(s.scene, Scene::Menu);
    assert!(s.game.is_none());
    assert!(MenuState::default().seed_text.is_empty());
    assert!(s.build_instances().is_empty());
    // Nothing to resume, save or load.
    s.apply_action(Action::Resume, None);
    assert_eq!(s.scene, Scene::Menu);
    assert!(matches!(s.apply_action(Action::Save, None), Request::Nothing));
    s.apply_action(Action::Load, None);
    s.apply_action(Action::Load, Some(&vec![1, 2, 3]));
    assert_eq!(s.scene, Scene::Menu);
    assert!(s.escape());
}

#[test]
fn worlds_are_created_saved_and_loaded() {
    let mut s = Session::new();
    assert!(matches!(s.apply_action(Action::CreateWorld(8), None), Request::Nothing));
    assert_eq!(s.scene, Scene::Playing);
    assert_eq!(s.camera.center, s.game.as_ref().unwrap().start_center());
    s.camera.zoom(f(1.5));
    let center = s.camera.center;
    let bytes = match s.apply_action(Action::Save, None) {
        Request::Write(bytes) => bytes,
        Request::Nothing => panic!("nothing to write"),
    };
    assert_eq!(s.cam_state().view_height, f(42.0));
    let people = s.game.as_ref().unwrap().entities.len();

    let mut t = Session::new();
    t.apply_action(Action::Load, Some(&bytes));
    assert_eq!(t.scene, Scene::Playing);
    assert_eq!(t.camera.center, center);
    assert_eq!(t.camera.view_height, f(42.0));
    assert_eq!(t.game.as_ref().unwrap().entities.len(), people);
    assert_eq!(t.game.as_ref().unwrap().world.seed(), 8);
}

#[test]
fn escape_leads_to_the_menu_and_back() {
    let mut s = Session::new();
    s.apply_action(Action::CreateWorld(8), None);
    assert!(!s.escape());
    assert_eq!(s.scene, Scene::Menu);
    // Time stands still at the menu.
    let center = s.camera.center;
    s.update(Keys { right: true, ..STILL }, f(0.1));
    assert_eq!(s.camera.center, center);
    s.apply_action(Action::Resume, None);
    assert_eq!(s.scene, Scene::Playing);
    s.apply_action(Action::ToMenu, None);
    assert_eq!(s.scene, Scene::Menu);
    assert!(s.escape());
}

#[test]
fn time_passes_while_playing() {
    let mut s = Session::new();
    s.apply_action(Action::CreateWorld(8), None);
    let x = s.camera.center.x;
    s.update(Keys { right: true, ..STILL }, f(0.1));
    assert_eq!(s.camera.center.x, x.add(f(28.0f32 * 0.9 * 0.1)));
    let before = s.game.as_ref().unwrap().player_spawn_timer;
    assert_eq!(before, f(7.0 - 0.1));
    s.load_visible();
    let (x0, y0, x1, y1) = s.camera.visible_bounds();
    let w = &s.game.as_ref().unwrap().world;
    assert!(w.cell(x0, y0).is_some() && w.cell(x1, y1).is_some());
    assert!(s.build_instances().len() >= ((x1 - x0 + 1) * (y1 - y0 + 1)) as usize);
}

#[test]
fn clicks_reach_the_game() {
    let mut s = Session::new();
    s.apply_action(Action::CreateWorld(8), None);
    s.camera.resize(800, 800);
    s.game.as_mut().unwrap().build_mode = BuildMode::Rally;
    s.build_at(f(400.0), f(400.0), f(800.0), f(800.0));
    let (x, y) = s.camera.center.tile();
    let flag = s.game.as_ref().unwrap().rally_point;
    assert_eq!(flag, Some(v(x as f32 + 0.5, y as f32 + 0.5)));
    s.clear_rally();
    assert!(s.game.as_ref().unwrap().rally_point.is_none());
}
