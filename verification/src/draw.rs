//! What to draw: terrain, bridges, buildings and nodes of the visible rectangle,
//! then the people (and their HP bars) on top.

use vstd::prelude::*;
use crate::chunk::{Hut, Resource, Tile, Wall};
use crate::float::{from_int_spec, F32};
use crate::game::{units_of, Game, GameView, Sapling};
use crate::unit::{Anim, Dir, Entity, EntityView, Faction, Job, ZERO};
use crate::vec2::{Coord, Vec2, HALF, ONE};
use crate::world::{World, WorldView};

verus! {

/// The owner of what the allies build.
pub const ALLY: u8 = 2;

/// Most same-type units drawn on a single tile; caps overdraw from huge stacks
/// without hiding ordinary crowds.
pub const STACK_DRAW_CAP: usize = 8;

/// A single picture.
#[derive(Clone, Copy, PartialEq, Eq, Structural, Debug)]
pub enum Sprite {
    White,
    Grass,
    Water,
    Bridge,
    Tree,
    Rock,
    House,
    EnemyHouse,
    Wall,
    Cave,
    Hut,
    EnemyHut,
    AllyHut,
    Rally,
}

/// A sheet of animation frames. Sheets are 5x12 grids of 16x16 frames.
#[derive(Clone, Copy, PartialEq, Eq, Structural, Debug)]
pub enum Sheet {
    Farmer,
    Knight,
    EnemyFarmer,
    EnemyKnight,
}

#[derive(Clone, Copy, PartialEq, Eq, Structural, Debug)]
pub enum Picture {
    Still(Sprite),
    Frame(Sheet, u32, u32),
}

#[derive(Clone, Copy, PartialEq, Eq, Structural, Debug)]
pub struct Tint {
    pub r: F32,
    pub g: F32,
    pub b: F32,
    pub a: F32,
}

/// One picture on the ground, in tile units.
#[derive(Clone, Copy, PartialEq, Eq, Structural, Debug)]
pub struct Quad {
    pub pos: Vec2,
    pub size: Vec2,
    pub picture: Picture,
    pub tint: Tint,
}

pub open spec fn tint_spec(r: u32, g: u32, b: u32, a: u32) -> Tint {
    Tint { r: F32 { bits: r }, g: F32 { bits: g }, b: F32 { bits: b }, a: F32 { bits: a } }
}

fn tint(r: u32, g: u32, b: u32, a: u32) -> (t: Tint)
    ensures
        t == tint_spec(r, g, b, a),
{
    Tint { r: F32 { bits: r }, g: F32 { bits: g }, b: F32 { bits: b }, a: F32 { bits: a } }
}

/// 1, 1, 1, 1.
pub open spec fn white_spec() -> Tint {
    tint_spec(ONE, ONE, ONE, ONE)
}

fn white() -> (t: Tint)
    ensures
        t == white_spec(),
{
    tint(ONE, ONE, ONE, ONE)
}

/// Walls of the other side: 1, 0.55, 0.5, 1.
pub open spec fn red_spec() -> Tint {
    tint_spec(ONE, 0x3f0c_cccd, HALF, ONE)
}

/// Walls of the allies: 0.55, 1, 0.6, 1.
pub open spec fn green_spec() -> Tint {
    tint_spec(0x3f0c_cccd, ONE, 0x3f19_999a, ONE)
}

/// Hut orders, see-through: 1, 1, 1, 0.4.
pub open spec fn ghostly_spec() -> Tint {
    tint_spec(ONE, ONE, ONE, 0x3ecc_cccd)
}

/// The back of an HP bar: 0.15, 0, 0, 0.85.
pub open spec fn bar_back_spec() -> Tint {
    tint_spec(0x3e19_999a, ZERO, ZERO, 0x3f59_999a)
}

/// The front of an HP bar: blue (0.3, 0.55, 1, 0.95) for the player, red (0.9, 0.25,
/// 0.2, 0.95) for the enemy.
pub open spec fn bar_spec(f: Faction) -> Tint {
    match f {
        Faction::Player => tint_spec(0x3e99_999a, 0x3f0c_cccd, ONE, 0x3f73_3333),
        Faction::Enemy => tint_spec(0x3f66_6666, 0x3e80_0000, 0x3e4c_cccd, 0x3f73_3333),
    }
}

/// A picture that covers one tile.
pub open spec fn tile_quad(x: i32, y: i32, sprite: Sprite, tint: Tint) -> Quad {
    Quad {
        pos: Vec2 { x: from_int_spec(x as int), y: from_int_spec(y as int) },
        size: Vec2 { x: F32 { bits: ONE }, y: F32 { bits: ONE } },
        picture: Picture::Still(sprite),
        tint,
    }
}

fn on_tile(x: i32, y: i32, sprite: Sprite, tint: Tint) -> (r: Quad)
    ensures
        r == tile_quad(x, y, sprite, tint),
{
    Quad {
        pos: Vec2 { x: F32::from_int(x as i64), y: F32::from_int(y as i64) },
        size: Vec2 { x: F32 { bits: ONE }, y: F32 { bits: ONE } },
        picture: Picture::Still(sprite),
        tint,
    }
}

/// What stands on a tile, if anything: one thing only.
pub open spec fn standing(w: WorldView, x: i32, y: i32) -> Option<(Sprite, Tint)> {
    if w.is_house(x, y) {
        Some((Sprite::House, white_spec()))
    } else if w.is_enemy_house(x, y) {
        Some((Sprite::EnemyHouse, white_spec()))
    } else if w.is_cave(x, y) {
        Some((Sprite::Cave, white_spec()))
    } else if w.hut(x, y) is Some {
        Some(
            (
                if w.hut(x, y)->0.owner == 0 {
                    Sprite::Hut
                } else if w.hut(x, y)->0.owner == ALLY {
                    Sprite::AllyHut
                } else {
                    Sprite::EnemyHut
                },
                white_spec(),
            ),
        )
    } else if w.wall(x, y) is Some {
        Some(
            (
                Sprite::Wall,
                if w.wall(x, y)->0.owner == 0 {
                    white_spec()
                } else if w.wall(x, y)->0.owner == ALLY {
                    green_spec()
                } else {
                    red_spec()
                },
            ),
        )
    } else {
        match w.node(x, y) {
            Some(n) => Some(
                (
                    match n.kind {
                        Resource::Wood => Sprite::Tree,
                        Resource::Stone => Sprite::Rock,
                    },
                    white_spec(),
                ),
            ),
            None => None,
        }
    }
}

fn what_stands(w: &World, x: i32, y: i32) -> (r: Option<(Sprite, Tint)>)
    requires
        w.wf(),
    ensures
        r == standing(w@, x, y),
{
    if w.is_house(x, y) {
        return Some((Sprite::House, white()));
    }
    if w.is_enemy_house(x, y) {
        return Some((Sprite::EnemyHouse, white()));
    }
    if w.is_cave(x, y) {
        return Some((Sprite::Cave, white()));
    }
    if let Some(h) = w.hut(x, y) {
        let sprite: Sprite = if h.owner == 0 {
            Sprite::Hut
        } else if h.owner == ALLY {
            Sprite::AllyHut
        } else {
            Sprite::EnemyHut
        };
        return Some((sprite, white()));
    }
    if let Some(wall) = w.wall(x, y) {
        // Tint walls by faction so they read apart.
        let t: Tint = if wall.owner == 0 {
            white()
        } else if wall.owner == ALLY {
            tint(0x3f0c_cccd, ONE, 0x3f19_999a, ONE)
        } else {
            tint(ONE, 0x3f0c_cccd, HALF, ONE)
        };
        return Some((Sprite::Wall, t));
    }
    match w.node(x, y) {
        Some(n) => {
            let sprite: Sprite = match n.kind {
                Resource::Wood => Sprite::Tree,
                Resource::Stone => Sprite::Rock,
            };
            Some((sprite, white()))
        },
        None => None,
    }
}

/// The ground of a tile, a bridge over it, and what stands there.
pub open spec fn tile_quads(w: WorldView, x: i32, y: i32) -> Seq<Quad> {
    let ground = seq![
        tile_quad(
            x,
            y,
            match w.tile(x, y) {
                Tile::Water => Sprite::Water,
                Tile::Grass => Sprite::Grass,
            },
            white_spec(),
        ),
    ];
    let spanned = if w.is_bridge(x, y) {
        ground.push(tile_quad(x, y, Sprite::Bridge, white_spec()))
    } else {
        ground
    };
    match standing(w, x, y) {
        Some(s) => spanned.push(tile_quad(x, y, s.0, s.1)),
        None => spanned,
    }
}

/// Tiles `x0 .. x1` of a row.
pub open spec fn row_quads(w: WorldView, y: int, x0: int, x1: int) -> Seq<Quad>
    decreases x1 - x0,
{
    if x1 <= x0 {
        Seq::empty()
    } else {
        row_quads(w, y, x0, x1 - 1) + tile_quads(w, (x1 - 1) as i32, y as i32)
    }
}

/// Rows `y0 .. y1` of a rectangle.
pub open spec fn land_quads(w: WorldView, x0: int, x1: int, y0: int, y1: int) -> Seq<Quad>
    decreases y1 - y0,
{
    if y1 <= y0 {
        Seq::empty()
    } else {
        land_quads(w, x0, x1, y0, y1 - 1) + row_quads(w, y1 - 1, x0, x1)
    }
}

/// A young tree that scales up from a sprout as it matures.
pub open spec fn sapling_quad(s: Sapling) -> Quad {
    let one = F32 { bits: ONE };
    // 0.3 + 0.7 * grow
    let size = (F32 { bits: 0x3e99_999a }).add_spec(
        (F32 { bits: 0x3f33_3333 }).mul_spec(s.grow.clamp_spec(F32 { bits: ZERO }, one)),
    );
    let rest = one.sub_spec(size);
    Quad {
        pos: Vec2 {
            x: from_int_spec(s.tile.0 as int).add_spec(rest.mul_spec(F32 { bits: HALF })),
            y: from_int_spec(s.tile.1 as int).add_spec(rest),
        },
        size: Vec2 { x: size, y: size },
        picture: Picture::Still(Sprite::Tree),
        tint: white_spec(),
    }
}

fn young_tree(s: &Sapling) -> (r: Quad)
    ensures
        r == sapling_quad(*s),
{
    let one: F32 = F32 { bits: ONE };
    let size: F32 = (F32 { bits: 0x3e99_999a }).add(
        (F32 { bits: 0x3f33_3333 }).mul(s.grow.clamp(F32 { bits: ZERO }, one)),
    );
    let rest: F32 = one.sub(size);
    Quad {
        pos: Vec2 {
            x: F32::from_int(s.tile.0 as i64).add(rest.mul(F32 { bits: HALF })),
            y: F32::from_int(s.tile.1 as i64).add(rest),
        },
        size: Vec2 { x: size, y: size },
        picture: Picture::Still(Sprite::Tree),
        tint: white(),
    }
}

pub open spec fn sapling_quads(saplings: Seq<Sapling>) -> Seq<Quad> {
    Seq::new(saplings.len(), |i: int| sapling_quad(saplings[i]))
}

// --- people ---------------------------------------------------------------------------

pub open spec fn sheet_spec(faction: Faction, job: Job) -> Sheet {
    match faction {
        Faction::Player => match job {
            Job::Farmer => Sheet::Farmer,
            Job::Knight => Sheet::Knight,
        },
        Faction::Enemy => match job {
            Job::Farmer => Sheet::EnemyFarmer,
            Job::Knight => Sheet::EnemyKnight,
        },
    }
}

/// First row and number of frames of an animation: both jobs walk on rows 0-3 in
/// five frames; farmers work on rows 8-11 in three, knights strike on rows 4-7 in
/// four.
pub open spec fn rows_spec(job: Job, anim: Anim) -> (u32, u32) {
    match anim {
        Anim::Idle => (0, 1),
        Anim::Walk => (0, 5),
        Anim::Act => match job {
            Job::Farmer => (8, 3),
            Job::Knight => (4, 4),
        },
    }
}

/// Rows within a block: down, up, then the two side rows. The side art is mirrored
/// from what the raw row order implies, so Right uses the third row and Left the
/// fourth.
pub open spec fn dir_row_spec(d: Dir) -> u32 {
    match d {
        Dir::Down => 0,
        Dir::Up => 1,
        Dir::Right => 2,
        Dir::Left => 3,
    }
}

/// Eight frames a second.
pub const FRAME_RATE: u32 = 0x4100_0000;

pub open spec fn sprite_frame_spec(e: EntityView) -> Picture {
    let (base, frames) = rows_spec(e.job, e.anim);
    Picture::Frame(
        sheet_spec(e.faction, e.job),
        if frames <= 1 {
            0
        } else {
            e.anim_time.mul_spec(F32 { bits: FRAME_RATE }).trunc_spec() % frames
        },
        (base + dir_row_spec(e.facing)) as u32,
    )
}

/// Map an entity's state + facing to a (sheet, column, row) frame.
pub fn sprite_frame(e: &Entity) -> (r: Picture)
    ensures
        r == sprite_frame_spec(e@),
{
    let sheet: Sheet = match e.faction {
        Faction::Player => match e.job {
            Job::Farmer => Sheet::Farmer,
            Job::Knight => Sheet::Knight,
        },
        Faction::Enemy => match e.job {
            Job::Farmer => Sheet::EnemyFarmer,
            Job::Knight => Sheet::EnemyKnight,
        },
    };
    let (base, frames): (u32, u32) = match e.anim {
        Anim::Idle => (0, 1),
        Anim::Walk => (0, 5),
        Anim::Act => match e.job {
            Job::Farmer => (8, 3),
            Job::Knight => (4, 4),
        },
    };
    let row: u32 = match e.facing {
        Dir::Down => 0,
        Dir::Up => 1,
        Dir::Right => 2,
        Dir::Left => 3,
    };
    let col: u32 = if frames <= 1 {
        0
    } else {
        e.anim_time.mul(F32 { bits: FRAME_RATE }).trunc() % frames
    };
    Picture::Frame(sheet, col, base + row)
}

/// Every frame lies on its sheet: 5 columns by 12 rows.
pub proof fn law_frames_on_sheet(e: EntityView)
    ensures
        sprite_frame_spec(e) matches Picture::Frame(sheet, col, row) && col < 5 && row < 12,
{
}

/// Two units are of a kind and on one tile.
pub open spec fn stacked(a: EntityView, b: EntityView) -> bool {
    a.tile() == b.tile() && a.faction == b.faction && a.job == b.job
}

/// How many of the first `n` units are stacked with the unit.
pub open spec fn stack_below(entities: Seq<EntityView>, e: EntityView, n: int) -> nat
    decreases n,
{
    if n <= 0 {
        0
    } else {
        stack_below(entities, e, n - 1) + if stacked(entities[n - 1], e) {
            1nat
        } else {
            0nat
        }
    }
}

/// A bar over a wounded unit's head: 0.8 wide, 0.12 high, 0.72 above its feet.
pub open spec fn bar_quads(e: EntityView) -> Seq<Quad> {
    let ratio = e.hp.div_spec(e.max_hp).clamp_spec(F32 { bits: ZERO }, F32 { bits: ONE });
    let bw = F32 { bits: 0x3f4c_cccd };
    let bh = F32 { bits: 0x3df5_c28f };
    let at = Vec2 {
        x: e.pos.x.sub_spec(bw.div_spec(F32 { bits: 0x4000_0000 })),
        y: e.pos.y.sub_spec(F32 { bits: 0x3f38_51ec }),
    };
    seq![
        Quad {
            pos: at,
            size: Vec2 { x: bw, y: bh },
            picture: Picture::Still(Sprite::White),
            tint: bar_back_spec(),
        },
        Quad {
            pos: at,
            size: Vec2 { x: bw.mul_spec(ratio), y: bh },
            picture: Picture::Still(Sprite::White),
            tint: bar_spec(e.faction),
        },
    ]
}

/// A square one tile wide round a point.
pub open spec fn around(p: Vec2) -> Vec2 {
    Vec2 { x: p.x.sub_spec(F32 { bits: HALF }), y: p.y.sub_spec(F32 { bits: HALF }) }
}

pub open spec fn unit_quads(e: EntityView) -> Seq<Quad> {
    let body = seq![
        Quad {
            pos: around(e.pos),
            size: Vec2 { x: F32 { bits: ONE }, y: F32 { bits: ONE } },
            picture: sprite_frame_spec(e),
            tint: white_spec(),
        },
    ];
    if e.hp.lt_spec(e.max_hp) {
        body + bar_quads(e)
    } else {
        body
    }
}

/// The first `n` units, but for those at the bottom of a stack.
pub open spec fn people_quads(entities: Seq<EntityView>, n: int) -> Seq<Quad>
    decreases n,
{
    if n <= 0 {
        Seq::empty()
    } else {
        let before = people_quads(entities, n - 1);
        let e = entities[n - 1];
        if stack_below(entities, e, n - 1) < STACK_DRAW_CAP {
            before + unit_quads(e)
        } else {
            before
        }
    }
}

pub open spec fn order_quads(orders: Seq<Coord>) -> Seq<Quad> {
    Seq::new(
        orders.len(),
        |i: int| tile_quad(orders[i].0, orders[i].1, Sprite::Hut, ghostly_spec()),
    )
}

pub open spec fn flag_quads(rally: Option<Vec2>) -> Seq<Quad> {
    match rally {
        Some(r) => seq![
            Quad {
                pos: around(r),
                size: Vec2 { x: F32 { bits: ONE }, y: F32 { bits: ONE } },
                picture: Picture::Still(Sprite::Rally),
                tint: white_spec(),
            },
        ],
        None => Seq::empty(),
    }
}

/// Everything to draw for a rectangle of tiles.
pub open spec fn scene_quads(g: GameView, view: (i32, i32, i32, i32)) -> Seq<Quad> {
    land_quads(g.world, view.0 as int, view.2 + 1, view.1 as int, view.3 + 1) + sapling_quads(
        g.saplings,
    ) + people_quads(g.entities, g.entities.len() as int) + order_quads(g.hut_orders) + flag_quads(
        g.rally_point,
    )
}

fn draw_tile(out: &mut Vec<Quad>, w: &World, x: i32, y: i32)
    requires
        w.wf(),
    ensures
        final(out)@ == old(out)@ + tile_quads(w@, x, y),
{
    let ground: Sprite = match w.tile(x, y) {
        Tile::Water => Sprite::Water,
        Tile::Grass => Sprite::Grass,
    };
    out.push(on_tile(x, y, ground, white()));
    if w.is_bridge(x, y) {
        out.push(on_tile(x, y, Sprite::Bridge, white()));
    }
    if let Some(s) = what_stands(w, x, y) {
        out.push(on_tile(x, y, s.0, s.1));
    }
    assert(out@ =~= old(out)@ + tile_quads(w@, x, y));
}

fn draw_land(out: &mut Vec<Quad>, w: &World, view: (i32, i32, i32, i32))
    requires
        w.wf(),
    ensures
        final(out)@ == old(out)@ + land_quads(
            w@,
            view.0 as int,
            view.2 + 1,
            view.1 as int,
            view.3 + 1,
        ),
{
    let ghost start = out@;
    let (minx, miny, maxx, maxy) = view;
    let mut y: i64 = miny as i64;
    assert(out@ =~= start + land_quads(w@, minx as int, maxx + 1, miny as int, y as int));
    while y <= maxy as i64
        invariant
            w.wf(),
            miny <= y,
            miny <= maxy ==> y <= maxy + 1,
            miny > maxy ==> y == miny,
            out@ =~= start + land_quads(w@, minx as int, maxx + 1, miny as int, y as int),
        decreases maxy + 1 - y,
    {
        let ghost before = out@;
        let mut x: i64 = minx as i64;
        assert(out@ =~= before + row_quads(w@, y as int, minx as int, x as int));
        while x <= maxx as i64
            invariant
                w.wf(),
                miny <= y <= maxy,
                minx <= x,
                minx <= maxx ==> x <= maxx + 1,
                minx > maxx ==> x == minx,
                out@ =~= before + row_quads(w@, y as int, minx as int, x as int),
            decreases maxx + 1 - x,
        {
            draw_tile(out, w, x as i32, y as i32);
            x = x + 1;
        }
        assert(row_quads(w@, y as int, minx as int, x as int) == row_quads(
            w@,
            y as int,
            minx as int,
            maxx + 1,
        ));
        y = y + 1;
    }
    assert(land_quads(w@, minx as int, maxx + 1, miny as int, y as int) == land_quads(
        w@,
        minx as int,
        maxx + 1,
        miny as int,
        maxy + 1,
    ));
}

fn draw_unit(out: &mut Vec<Quad>, e: &Entity)
    ensures
        final(out)@ == old(out)@ + unit_quads(e@),
{
    let one: F32 = F32 { bits: ONE };
    let half: F32 = F32 { bits: HALF };
    out.push(
        Quad {
            pos: Vec2 { x: e.pos.x.sub(half), y: e.pos.y.sub(half) },
            size: Vec2 { x: one, y: one },
            picture: sprite_frame(e),
            tint: white(),
        },
    );
    if e.hp.lt(e.max_hp) {
        let ratio: F32 = e.hp.div(e.max_hp).clamp(F32 { bits: ZERO }, one);
        let bw: F32 = F32 { bits: 0x3f4c_cccd };
        let bh: F32 = F32 { bits: 0x3df5_c28f };
        let at: Vec2 = Vec2 {
            x: e.pos.x.sub(bw.div(F32 { bits: 0x4000_0000 })),
            y: e.pos.y.sub(F32 { bits: 0x3f38_51ec }),
        };
        out.push(
            Quad {
                pos: at,
                size: Vec2 { x: bw, y: bh },
                picture: Picture::Still(Sprite::White),
                tint: tint(0x3e19_999a, ZERO, ZERO, 0x3f59_999a),
            },
        );
        let front: Tint = match e.faction {
            Faction::Player => tint(0x3e99_999a, 0x3f0c_cccd, ONE, 0x3f73_3333),
            Faction::Enemy => tint(0x3f66_6666, 0x3e80_0000, 0x3e4c_cccd, 0x3f73_3333),
        };
        out.push(
            Quad {
                pos: at,
                size: Vec2 { x: bw.mul(ratio), y: bh },
                picture: Picture::Still(Sprite::White),
                tint: front,
            },
        );
    }
    assert(out@ =~= old(out)@ + unit_quads(e@));
}

fn count_stack(entities: &Vec<Entity>, n: usize) -> (r: usize)
    requires
        n < entities.len(),
    ensures
        r == stack_below(units_of(entities@), units_of(entities@)[n as int], n as int),
{
    let ghost all = units_of(entities@);
    let t: Coord = entities[n].tile();
    let mut count: usize = 0;
    let mut i: usize = 0;
    while i < n
        invariant
            n < entities.len(),
            i <= n,
            count <= i,
            all == units_of(entities@),
            t == all[n as int].tile(),
            count == stack_below(all, all[n as int], i as int),
        decreases n - i,
    {
        let u: Coord = entities[i].tile();
        assert(all[i as int] == entities@[i as int]@);
        assert(all[n as int] == entities@[n as int]@);
        if u.0 == t.0 && u.1 == t.1 && entities[i].faction == entities[n].faction
            && entities[i].job == entities[n].job {
            count = count + 1;
        }
        i = i + 1;
    }
    count
}

/// Assemble the draw list for a rectangle of tiles.
pub fn draw(game: &Game, view: (i32, i32, i32, i32)) -> (r: Vec<Quad>)
    requires
        game.wf(),
    ensures
        r@ == scene_quads(game@, view),
{
    let mut out: Vec<Quad> = Vec::new();
    draw_land(&mut out, &game.world, view);
    let ghost land = out@;
    let mut i: usize = 0;
    while i < game.saplings.len()
        invariant
            i <= game.saplings.len(),
            out@ =~= land + sapling_quads(game@.saplings).take(i as int),
        decreases game.saplings.len() - i,
    {
        out.push(young_tree(&game.saplings[i]));
        assert(sapling_quads(game@.saplings).take(i + 1) =~= sapling_quads(game@.saplings).take(
            i as int,
        ).push(sapling_quad(game.saplings@[i as int])));
        i = i + 1;
    }
    assert(sapling_quads(game@.saplings).take(i as int) =~= sapling_quads(game@.saplings));
    let ghost grown = out@;
    let mut i: usize = 0;
    while i < game.entities.len()
        invariant
            i <= game.entities.len(),
            out@ =~= grown + people_quads(game@.entities, i as int),
        decreases game.entities.len() - i,
    {
        assert(game@.entities[i as int] == game.entities@[i as int]@);
        if count_stack(&game.entities, i) < STACK_DRAW_CAP {
            draw_unit(&mut out, &game.entities[i]);
        }
        i = i + 1;
    }
    let ghost peopled = out@;
    let mut i: usize = 0;
    while i < game.hut_orders.len()
        invariant
            i <= game.hut_orders.len(),
            out@ =~= peopled + order_quads(game@.hut_orders).take(i as int),
        decreases game.hut_orders.len() - i,
    {
        let t: Coord = game.hut_orders[i];
        out.push(on_tile(t.0, t.1, Sprite::Hut, tint(ONE, ONE, ONE, 0x3ecc_cccd)));
        assert(order_quads(game@.hut_orders).take(i + 1) =~= order_quads(game@.hut_orders).take(
            i as int,
        ).push(tile_quad(t.0, t.1, Sprite::Hut, ghostly_spec())));
        i = i + 1;
    }
    assert(order_quads(game@.hut_orders).take(i as int) =~= order_quads(game@.hut_orders));
    if let Some(r) = game.rally_point {
        let half: F32 = F32 { bits: HALF };
        let one: F32 = F32 { bits: ONE };
        out.push(
            Quad {
                pos: Vec2 { x: r.x.sub(half), y: r.y.sub(half) },
                size: Vec2 { x: one, y: one },
                picture: Picture::Still(Sprite::Rally),
                tint: white(),
            },
        );
    }
    assert(out@ =~= scene_quads(game@, view));
    out
}

// --- bars -----------------------------------------------------------------------------

/// The game with other hit points for one unit.
pub open spec fn with_hp(g: GameView, i: int, hp: F32) -> GameView {
    GameView { entities: g.entities.update(i, EntityView { hp, ..g.entities[i] }), ..g }
}

/// Where the draw list goes on behind the sprite of a unit.
pub open spec fn behind_sprite(g: GameView, view: (i32, i32, i32, i32), i: int) -> int {
    (land_quads(g.world, view.0 as int, view.2 + 1, view.1 as int, view.3 + 1) + sapling_quads(
        g.saplings,
    ) + people_quads(g.entities, i)).len() as int + 1
}

proof fn lemma_same_stack(es: Seq<EntityView>, i: int, hp: F32, e: EntityView, f: EntityView, n: int)
    requires
        0 <= i < es.len(),
        n <= es.len(),
        e.tile() == f.tile(),
        e.faction == f.faction,
        e.job == f.job,
    ensures
        stack_below(es.update(i, EntityView { hp, ..es[i] }), f, n) == stack_below(es, e, n),
    decreases n,
{
    if n > 0 {
        lemma_same_stack(es, i, hp, e, f, n - 1);
        let now = es.update(i, EntityView { hp, ..es[i] });
        assert(now[n - 1].tile() == es[n - 1].tile());
    }
}

proof fn lemma_bars(es: Seq<EntityView>, i: int, hp: F32, n: int)
    requires
        0 <= i < es.len(),
        0 <= n <= es.len(),
        !es[i].hp.lt_spec(es[i].max_hp),
        hp.lt_spec(es[i].max_hp),
        stack_below(es, es[i], i) < STACK_DRAW_CAP,
    ensures
        ({
            let hurt = EntityView { hp, ..es[i] };
            let now = people_quads(es.update(i, hurt), n);
            let was = people_quads(es, n);
            let p = people_quads(es, i).len() + 1;
            if n <= i {
                now == was
            } else {
                &&& 0 < p <= was.len()
                &&& was[p - 1] == unit_quads(es[i])[0]
                &&& now == was.take(p as int) + bar_quads(hurt) + was.skip(p as int)
            }
        }),
    decreases n,
{
    if n > 0 {
        lemma_bars(es, i, hp, n - 1);
        let hurt = EntityView { hp, ..es[i] };
        let all = es.update(i, hurt);
        let e = es[n - 1];
        lemma_same_stack(es, i, hp, e, all[n - 1], n - 1);
        let p = people_quads(es, i).len() as int + 1;
        let was = people_quads(es, n);
        let before = people_quads(es, n - 1);
        if n - 1 == i {
            let body = unit_quads(e);
            assert(was =~= before + body);
            assert(was.take(p) =~= was);
            assert(was.skip(p) =~= Seq::empty());
            assert(unit_quads(hurt) =~= body + bar_quads(hurt));
            assert(people_quads(all, n) =~= was.take(p) + bar_quads(hurt) + was.skip(p));
        } else if n - 1 > i {
            assert(was.take(p) =~= before.take(p));
            if stack_below(es, e, n - 1) < STACK_DRAW_CAP {
                assert(was.skip(p) =~= before.skip(p) + unit_quads(e));
            }
            assert(people_quads(all, n) =~= was.take(p) + bar_quads(hurt) + was.skip(p));
        }
    }
}

/// Only the wounded have an HP bar: once a unit that is drawn loses hit points, two
/// quads come in right behind its sprite, and nothing else changes.
pub proof fn law_bars_only_for_the_wounded(
    g: GameView,
    view: (i32, i32, i32, i32),
    i: int,
    hp: F32,
)
    requires
        0 <= i < g.entities.len(),
        !g.entities[i].hp.lt_spec(g.entities[i].max_hp),
        hp.lt_spec(g.entities[i].max_hp),
        stack_below(g.entities, g.entities[i], i) < STACK_DRAW_CAP,
    ensures
        ({
            let was = scene_quads(g, view);
            let p = behind_sprite(g, view, i);
            let bars = bar_quads(EntityView { hp, ..g.entities[i] });
            &&& 0 < p <= was.len()
            &&& was[p - 1] == unit_quads(g.entities[i])[0]
            &&& bars.len() == 2
            &&& scene_quads(with_hp(g, i, hp), view) == was.take(p) + bars + was.skip(p)
        }),
{
    let n = g.entities.len() as int;
    lemma_bars(g.entities, i, hp, n);
    let front = land_quads(g.world, view.0 as int, view.2 + 1, view.1 as int, view.3 + 1)
        + sapling_quads(g.saplings);
    let people = people_quads(g.entities, n);
    let back = order_quads(g.hut_orders) + flag_quads(g.rally_point);
    let was = scene_quads(g, view);
    assert(was =~= front + people + back);
    let q = people_quads(g.entities, i).len() as int + 1;
    let p = behind_sprite(g, view, i);
    assert(p == front.len() + q);
    assert(was[p - 1] == people[q - 1]);
    let bars = bar_quads(EntityView { hp, ..g.entities[i] });
    assert(was.take(p) =~= front + people.take(q));
    assert(was.skip(p) =~= people.skip(q) + back);
    assert(scene_quads(with_hp(g, i, hp), view) =~= was.take(p) + bars + was.skip(p));
}

} // verus!
