//! What can be told from the picture: what stands on a tile and whose it is, and who is
//! who among the people.

use vstd::prelude::*;
use crate::chunk::{Cell, Resource, Tile};
use crate::draw::{
    flag_quads, land_quads, order_quads, people_quads, row_quads, sapling_quad, sapling_quads, scene_quads,
    stack_below, tile_quads, unit_quads, Picture, Quad, Sheet, Sprite, Tint,
};
use crate::float::{from_int_spec, F32};
use crate::game::GameView;
use crate::unit::{Anim, Dir, EntityView, Faction, Job};
use crate::vec2::Vec2;
use crate::world::WorldView;

verus! {

/// The quad covers the tile, and no more.
pub open spec fn covers(q: Quad, x: i32, y: i32) -> bool {
    &&& q.pos == (Vec2 { x: from_int_spec(x as int), y: from_int_spec(y as int) })
    &&& q.size == (Vec2 { x: F32 { bits: 0x3f80_0000 }, y: F32 { bits: 0x3f80_0000 } })
}

/// Nothing is built on the tile.
pub open spec fn unbuilt(c: Cell) -> bool {
    !c.house && !c.enemy_house && !c.cave && c.hut is None && c.wall is None
}

/// The picture tells what is on the tile.
pub open spec fn tells(picture: Picture, c: Cell) -> bool {
    &&& (picture == Picture::Still(Sprite::House)) == c.house
    &&& (picture == Picture::Still(Sprite::EnemyHouse)) == (c.enemy_house && !c.house)
    &&& c.house || c.enemy_house || (picture == Picture::Still(Sprite::Cave)) == c.cave
    &&& !c.house && !c.enemy_house && !c.cave && c.hut is Some ==> {
        &&& (picture == Picture::Still(Sprite::Hut)) == (c.hut->0.owner == 0)
        &&& (picture == Picture::Still(Sprite::AllyHut)) == (c.hut->0.owner == 2)
        &&& (picture == Picture::Still(Sprite::EnemyHut)) == (c.hut->0.owner != 0
            && c.hut->0.owner != 2)
    }
    &&& !c.house && !c.enemy_house && !c.cave && c.hut is None ==> (picture == Picture::Still(
        Sprite::Wall,
    )) == (c.wall is Some)
    &&& (picture == Picture::Still(Sprite::Tree)) == (unbuilt(c) && c.node is Some
        && c.node->0.kind == Resource::Wood)
    &&& (picture == Picture::Still(Sprite::Rock)) == (unbuilt(c) && c.node is Some
        && c.node->0.kind == Resource::Stone)
    &&& unbuilt(c) && c.node is None ==> picture == Picture::Still(
        if c.bridge {
            Sprite::Bridge
        } else if c.tile == Tile::Grass {
            Sprite::Grass
        } else {
            Sprite::Water
        },
    )
}

/// Opaque, and as the picture was painted.
pub open spec fn plain() -> Tint {
    let one = F32 { bits: 0x3f80_0000 };
    Tint { r: one, g: one, b: one, a: one }
}

/// Whose a wall is can be told from its colour.
pub open spec fn colours_tell(t: Tint, c: Cell) -> bool {
    if !c.house && !c.enemy_house && !c.cave && c.hut is None && c.wall is Some {
        &&& (t == plain()) == (c.wall->0.owner == 0)
        // Redder than anything else, or greener.
        &&& c.wall->0.owner == 2 ==> t.r.bits < t.g.bits && t.b.bits < t.g.bits
        &&& c.wall->0.owner != 0 && c.wall->0.owner != 2 ==> t.g.bits < t.r.bits && t.b.bits
            < t.r.bits
        &&& t.a.bits == 0x3f80_0000
    } else {
        t == plain()
    }
}

/// The quads from `p` on, `n` of them, are the tile: the ground, a bridge where there is
/// one, and what stands there.
pub open spec fn shows_tile(quads: Seq<Quad>, p: int, n: int, c: Cell, x: i32, y: i32) -> bool {
    &&& 0 <= p
    &&& 1 <= n <= 3
    &&& p + n <= quads.len()
    &&& forall|k: int| p <= k < p + n ==> covers(#[trigger] quads[k], x, y)
    &&& quads[p].picture == Picture::Still(
        if c.tile == Tile::Grass {
            Sprite::Grass
        } else {
            Sprite::Water
        },
    )
    &&& c.bridge == (exists|k: int|
        p <= k < p + n && (#[trigger] quads[k]).picture == Picture::Still(Sprite::Bridge))
    &&& tells(quads[p + n - 1].picture, c)
    &&& colours_tell(quads[p + n - 1].tint, c)
}

proof fn lemma_tile(w: WorldView, x: i32, y: i32)
    requires
        w.loaded(x, y),
    ensures
        shows_tile(tile_quads(w, x, y), 0, tile_quads(w, x, y).len() as int, w.at(x, y), x, y),
{
    let quads = tile_quads(w, x, y);
    let c = w.at(x, y);
    if c.bridge {
        assert(quads[1].picture == Picture::Still(Sprite::Bridge));
    }
}

proof fn lemma_row(w: WorldView, y: int, x0: int, x1: int, x: int)
    requires
        x0 <= x < x1,
    ensures
        ({
            let row = row_quads(w, y, x0, x1);
            let p = row_quads(w, y, x0, x).len() as int;
            let tile = tile_quads(w, x as i32, y as i32);
            p + tile.len() <= row.len() && row.subrange(p, p + tile.len()) == tile
        }),
    decreases x1 - x0,
{
    let row = row_quads(w, y, x0, x1);
    let p = row_quads(w, y, x0, x).len() as int;
    let tile = tile_quads(w, x as i32, y as i32);
    if x == x1 - 1 {
        assert(row.subrange(p, p + tile.len()) =~= tile);
    } else {
        lemma_row(w, y, x0, x1 - 1, x);
        let before = row_quads(w, y, x0, x1 - 1);
        assert(row.subrange(p, p + tile.len()) =~= before.subrange(p, p + tile.len()));
    }
}

proof fn lemma_land(w: WorldView, x0: int, x1: int, y0: int, y1: int, x: int, y: int)
    requires
        x0 <= x < x1,
        y0 <= y < y1,
    ensures
        ({
            let land = land_quads(w, x0, x1, y0, y1);
            let p = (land_quads(w, x0, x1, y0, y).len() + row_quads(w, y, x0, x).len()) as int;
            let tile = tile_quads(w, x as i32, y as i32);
            p + tile.len() <= land.len() && land.subrange(p, p + tile.len()) == tile
        }),
    decreases y1 - y0,
{
    let land = land_quads(w, x0, x1, y0, y1);
    let p = (land_quads(w, x0, x1, y0, y).len() + row_quads(w, y, x0, x).len()) as int;
    let tile = tile_quads(w, x as i32, y as i32);
    if y == y1 - 1 {
        lemma_row(w, y, x0, x1, x);
        let row = row_quads(w, y, x0, x1);
        let q = row_quads(w, y, x0, x).len() as int;
        assert(land.subrange(p, p + tile.len()) =~= row.subrange(q, q + tile.len()));
    } else {
        lemma_land(w, x0, x1, y0, y1 - 1, x, y);
        let before = land_quads(w, x0, x1, y0, y1 - 1);
        assert(land.subrange(p, p + tile.len()) =~= before.subrange(p, p + tile.len()));
    }
}

/// Every loaded tile in view is drawn, and the picture on top tells what it is: the
/// player's house, the enemy's, a mine, a hut or a wall and whose, a tree, a rock, a
/// bridge, or bare ground.
pub proof fn law_pictures_tell_what_stands(
    g: GameView,
    view: (i32, i32, i32, i32),
    x: i32,
    y: i32,
)
    requires
        view.0 <= x <= view.2,
        view.1 <= y <= view.3,
        g.world.loaded(x, y),
    ensures
        exists|p: int, n: int| #[trigger]
            shows_tile(scene_quads(g, view), p, n, g.world.at(x, y), x, y),
{
    let w = g.world;
    let (x0, x1, y0, y1) = (view.0 as int, view.2 + 1, view.1 as int, view.3 + 1);
    lemma_land(w, x0, x1, y0, y1, x as int, y as int);
    lemma_tile(w, x, y);
    let land = land_quads(w, x0, x1, y0, y1);
    let all = scene_quads(g, view);
    let p = (land_quads(w, x0, x1, y0, y as int).len() + row_quads(w, y as int, x0, x as int).len()) as int;
    let tile = tile_quads(w, x, y);
    let n = tile.len() as int;
    assert forall|k: int| p <= k < p + n implies #[trigger] all[k] == tile[k - p] by {
        assert(all[k] == land[k]);
        assert(land.subrange(p, p + n)[k - p] == land[k]);
    }
    let c = w.at(x, y);
    if c.bridge {
        let k = choose|k: int|
            0 <= k < n && (#[trigger] tile[k]).picture == Picture::Still(Sprite::Bridge);
        assert(all[p + k] == tile[k]);
    }
    assert(shows_tile(all, p, n, c, x, y));
}

/// Houses, huts and walls of different sides never look the same.
pub proof fn law_sides_look_different(p: Picture, q: Picture, s: Tint, t: Tint, a: Cell, b: Cell)
    requires
        tells(p, a),
        tells(q, b),
        colours_tell(s, a),
        colours_tell(t, b),
        p == q && s == t,
    ensures
        a.house == b.house,
        !a.house ==> a.enemy_house == b.enemy_house,
        !a.house && !a.enemy_house ==> a.cave == b.cave,
        !a.house && !a.enemy_house && !a.cave && a.hut is Some && b.hut is Some ==> (
        a.hut->0.owner == 0) == (b.hut->0.owner == 0),
        !a.house && !a.enemy_house && !a.cave && a.hut is None && b.hut is None && a.wall is Some
            && b.wall is Some ==> (a.wall->0.owner == 0) == (b.wall->0.owner == 0),
{
}

// --- people ------------------------------------------------------------------------------

/// The frame tells the side, the trade, and which way the unit looks.
pub open spec fn tells_unit(picture: Picture, e: EntityView) -> bool {
    picture matches Picture::Frame(sheet, col, row) && {
        &&& (sheet == Sheet::Farmer) == (e.faction == Faction::Player && e.job == Job::Farmer)
        &&& (sheet == Sheet::Knight) == (e.faction == Faction::Player && e.job == Job::Knight)
        &&& (sheet == Sheet::EnemyFarmer) == (e.faction == Faction::Enemy && e.job == Job::Farmer)
        &&& (sheet == Sheet::EnemyKnight) == (e.faction == Faction::Enemy && e.job == Job::Knight)
        &&& row % 4 == match e.facing {
            Dir::Down => 0int,
            Dir::Up => 1,
            Dir::Right => 2,
            Dir::Left => 3,
        }
        &&& row / 4 == match e.anim {
            Anim::Act => if e.job == Job::Farmer {
                2int
            } else {
                1
            },
            _ => 0,
        }
        &&& col < match e.anim {
            Anim::Idle => 1int,
            Anim::Walk => 5,
            Anim::Act => if e.job == Job::Farmer {
                3
            } else {
                4
            },
        }
    }
}

/// The quad is the unit's sprite: one tile wide and high, with the unit in its middle.
pub open spec fn is_sprite(q: Quad, e: EntityView) -> bool {
    let half = F32 { bits: 0x3f00_0000 };
    let one = F32 { bits: 0x3f80_0000 };
    &&& q.pos == (Vec2 { x: e.pos.x.sub_spec(half), y: e.pos.y.sub_spec(half) })
    &&& q.size == (Vec2 { x: one, y: one })
    &&& q.tint == plain()
    &&& tells_unit(q.picture, e)
}

/// How many of the first `n` units are of the same side and trade as the unit and share its
/// tile.
pub open spec fn kin_below(es: Seq<EntityView>, e: EntityView, n: int) -> nat
    decreases n,
{
    if n <= 0 {
        0
    } else if es[n - 1].tile() == e.tile() && es[n - 1].faction == e.faction && es[n - 1].job
        == e.job {
        kin_below(es, e, n - 1) + 1
    } else {
        kin_below(es, e, n - 1)
    }
}

proof fn lemma_kin(es: Seq<EntityView>, e: EntityView, n: int)
    ensures
        stack_below(es, e, n) == kin_below(es, e, n),
    decreases n,
{
    if n > 0 {
        lemma_kin(es, e, n - 1);
    }
}

proof fn lemma_sprite(es: Seq<EntityView>, i: int, n: int)
    requires
        0 <= i < n <= es.len(),
        stack_below(es, es[i], i) < 8,
    ensures
        ({
            let p = people_quads(es, i).len() as int;
            p < people_quads(es, n).len() && is_sprite(people_quads(es, n)[p], es[i])
        }),
    decreases n,
{
    let p = people_quads(es, i).len() as int;
    let e = es[i];
    if n == i + 1 {
        assert(people_quads(es, n)[p] == unit_quads(e)[0]);
    } else {
        lemma_sprite(es, i, n - 1);
        assert(people_quads(es, n)[p] == people_quads(es, n - 1)[p]);
    }
}

/// Everyone is drawn where they stand, but for those under eight more of their kind on
/// one tile, and the sprite tells their side, their trade and what they do.
pub proof fn law_everyone_is_drawn(g: GameView, view: (i32, i32, i32, i32), i: int)
    requires
        0 <= i < g.entities.len(),
        kin_below(g.entities, g.entities[i], i) < 8,
    ensures
        exists|p: int|
            0 <= p < scene_quads(g, view).len() && is_sprite(
                #[trigger] scene_quads(g, view)[p],
                g.entities[i],
            ),
{
    let n = g.entities.len() as int;
    lemma_kin(g.entities, g.entities[i], i);
    lemma_sprite(g.entities, i, n);
    let land = land_quads(g.world, view.0 as int, view.2 + 1, view.1 as int, view.3 + 1);
    let front = land + sapling_quads(g.saplings);
    let q = people_quads(g.entities, i).len() as int;
    let all = scene_quads(g, view);
    assert(all[front.len() + q] == people_quads(g.entities, n)[q]);
}

/// The ninth of a kind on one tile and those after it are not drawn.
pub proof fn law_crowds_are_thinned(es: Seq<EntityView>, i: int)
    requires
        0 <= i < es.len(),
    ensures
        kin_below(es, es[i], i) >= 8 ==> people_quads(es, i + 1) == people_quads(es, i),
        kin_below(es, es[i], i) < 8 ==> people_quads(es, i + 1).len() > people_quads(es, i).len(),
{
    lemma_kin(es, es[i], i);
}

/// The unhurt have no bar over them. The wounded have one: a dark strip, and on it a strip in
/// the colour of their side, as much of its width as they have health left, bluish for the
/// player and reddish for the enemy.
pub proof fn law_bars_show_health(e: EntityView)
    ensures
        !e.hp.lt_spec(e.max_hp) ==> unit_quads(e).len() == 1,
        e.hp.lt_spec(e.max_hp) ==> ({
            let q = unit_quads(e);
            let left = e.hp.div_spec(e.max_hp).clamp_spec(
                F32 { bits: 0 },
                F32 { bits: 0x3f80_0000 },
            );
            &&& q.len() == 3
            &&& q[1].picture == Picture::Still(Sprite::White)
            &&& q[2].picture == Picture::Still(Sprite::White)
            &&& q[1].pos == q[2].pos && q[1].size.y == q[2].size.y
            &&& q[2].size.x == q[1].size.x.mul_spec(left)
            &&& q[1].tint.r.lt_spec(q[2].tint.r)
            &&& if e.faction == Faction::Player {
                q[2].tint.r.lt_spec(q[2].tint.b)
            } else {
                q[2].tint.b.lt_spec(q[2].tint.r)
            }
        }),
{
    reveal(F32::lt_spec);
    let q = unit_quads(e);
    if e.hp.lt_spec(e.max_hp) {
        assert(q.len() == 3);
    }
}

/// Every hut on order, every sapling and the flag is drawn: an order as a see-through hut
/// on its tile, a sapling as a tree, the flag round its place.
pub proof fn law_orders_are_drawn(g: GameView, view: (i32, i32, i32, i32))
    ensures
        forall|k: int|
            0 <= k < g.hut_orders.len() ==> exists|p: int|
                0 <= p < scene_quads(g, view).len() && covers(
                    #[trigger] scene_quads(g, view)[p],
                    (#[trigger] g.hut_orders[k]).0,
                    g.hut_orders[k].1,
                ) && scene_quads(g, view)[p].picture == Picture::Still(Sprite::Hut) && scene_quads(
                    g,
                    view,
                )[p].tint.a.bits < 0x3f80_0000,
        g.rally_point matches Some(r) ==> ({
            let last = scene_quads(g, view).last();
            let half = F32 { bits: 0x3f00_0000 };
            &&& scene_quads(g, view).len() > 0
            &&& last.picture == Picture::Still(Sprite::Rally)
            &&& last.pos == (Vec2 { x: r.x.sub_spec(half), y: r.y.sub_spec(half) })
        }),
        forall|k: int|
            0 <= k < g.saplings.len() ==> exists|p: int|
                0 <= p < scene_quads(g, view).len() && (
                #[trigger] scene_quads(g, view)[p]).picture == Picture::Still(Sprite::Tree)
                    && scene_quads(g, view)[p] == sapling_quad(#[trigger] g.saplings[k]),
{
    let all = scene_quads(g, view);
    let land = land_quads(g.world, view.0 as int, view.2 + 1, view.1 as int, view.3 + 1);
    let young = sapling_quads(g.saplings);
    let front = land + young + people_quads(g.entities, g.entities.len() as int);
    let orders = order_quads(g.hut_orders);
    let flag = flag_quads(g.rally_point);
    assert(all =~= front + orders + flag);
    assert forall|k: int| 0 <= k < g.hut_orders.len() implies exists|p: int|
        0 <= p < all.len() && covers(
            #[trigger] all[p],
            (#[trigger] g.hut_orders[k]).0,
            g.hut_orders[k].1,
        ) && all[p].picture == Picture::Still(Sprite::Hut) && all[p].tint.a.bits < 0x3f80_0000 by {
        let p = front.len() as int + k;
        assert(all[p] == orders[k]);
        assert(covers(all[p], g.hut_orders[k].0, g.hut_orders[k].1));
    }
    assert forall|k: int| 0 <= k < g.saplings.len() implies exists|p: int|
        0 <= p < all.len() && (#[trigger] all[p]).picture == Picture::Still(Sprite::Tree) && all[p]
            == sapling_quad(#[trigger] g.saplings[k]) by {
        let p = land.len() as int + k;
        assert(all[p] == young[k]);
    }
    if g.rally_point is Some {
        assert(all.last() == flag[0]);
    }
}

} // verus!
