//! What a game begins with: the enemy's four villages, each with a house at least, and
//! lists that name every building.

use vstd::prelude::*;
use crate::chunk::{Cell, Tile};
use crate::founding::{
    camp_rng, camp_site_spec, camp_target, clear_site, eastmost_spec, first_anchor, first_land,
    new_ground, patched, settled, villagers, Camps, CAMP_CLEARANCE, CAMP_HOUSES, CAMP_RANGE,
    CAMP_SALT, CAMP_SEARCH, CAMP_TRIES, ENEMY_VILLAGES, PATCH,
};
use crate::game::{GameView, ENSURE_MARGIN};
use crate::grid::{near_any_spec, offset_spec, shift_spec, within_spec};
use crate::pathfind::walks;
use crate::register::{
    exact, lemma_added, lemma_edit, lemma_edit_alike, lemma_others, lemma_region, lemma_scanned, on,
    registered, same_buildings, tidy,
};
use crate::rules::law_edits_are_local;
use crate::survey::{anything, land_region, law_nearest, open_grass, whole_square};
use crate::vec2::Coord;
use crate::village::{cluster_spec, lemma_new_village};
use crate::world::{camp_spot, law_loading_keeps_land, Layer, WorldView};

verus! {

/// An enemy house stands on the tile.
pub open spec fn stands(w: WorldView, t: Coord) -> bool {
    w.loaded(t.0, t.1) && w.at(t.0, t.1).enemy_house
}

/// The land is tidy, the list of enemy houses exact, and what else stands is what stood
/// on the other land.
pub open spec fn settled_on(w: WorldView, base: WorldView) -> bool {
    &&& tidy(w)
    &&& exact(w, w.enemy_house_tiles, Layer::EnemyHouse)
    &&& forall|layer: Layer, t: Coord|
        layer != Layer::EnemyHouse ==> #[trigger] on(w, layer, t) == on(base, layer, t)
}

/// What leaves the buildings and the list alone.
proof fn lemma_settled_on(w: WorldView, more: WorldView, base: WorldView)
    requires
        settled_on(w, base),
        tidy(more),
        same_buildings(w, more),
        more.enemy_house_tiles == w.enemy_house_tiles,
    ensures
        settled_on(more, base),
{
    lemma_others(w, more, w.enemy_house_tiles, Layer::EnemyHouse);
    assert forall|layer: Layer, t: Coord| layer != Layer::EnemyHouse implies #[trigger] on(
        more,
        layer,
        t,
    ) == on(base, layer, t) by {
        assert(on(w, layer, t) == on(base, layer, t));
    }
}

/// `b` names the houses of `a`, then others within three tiles of the centre.
pub open spec fn grown(a: Seq<Coord>, b: Seq<Coord>, center: Coord) -> bool {
    &&& a.len() <= b.len()
    &&& forall|i: int| 0 <= i < a.len() ==> #[trigger] b[i] == a[i]
    &&& forall|i: int| a.len() <= i < b.len() ==> within_spec(#[trigger] b[i], center, 3)
}

/// The spots of a camp from the `k`-th on are not on the list yet.
spec fn spots_free(tiles: Seq<Coord>, center: Coord, k: int) -> bool {
    forall|j: int|
        k <= j < 9 ==> ((#[trigger] camp_spot(center, j)) matches Some(t) ==> !tiles.contains(t))
}

proof fn lemma_camp_from(w: WorldView, base: WorldView, center: Coord, k: int, left: int)
    requires
        settled_on(w, base),
        spots_free(w.enemy_house_tiles, center, k),
        0 <= k <= 9,
    ensures
        ({
            let after = w.camp_from(center, k, left);
            &&& settled_on(after, base)
            &&& grown(w.enemy_house_tiles, after.enemy_house_tiles, center)
            &&& k <= 4 && left > 0 && w.tile(center.0, center.1) == Tile::Grass
                ==> after.enemy_house_tiles.len() > w.enemy_house_tiles.len()
        }),
    decreases 9 - k,
{
    if k < 9 && left > 0 {
        assert(-1 <= k % 3 - 1 <= 1 && -1 <= k / 3 - 1 <= 1);
        match camp_spot(center, k) {
            Some(t) => if w.tile(t.0, t.1) == Tile::Grass {
                lemma_camp_house(w, base, t);
                let next = w.with_camp_house(t);
                assert(spots_free(next.enemy_house_tiles, center, k + 1)) by {
                    assert forall|j: int| k + 1 <= j < 9 implies ((#[trigger] camp_spot(
                        center,
                        j,
                    )) matches Some(u) ==> !next.enemy_house_tiles.contains(u)) by {
                        if let Some(u) = camp_spot(center, j) {
                            assert(u != t);
                            if next.enemy_house_tiles.contains(u) {
                                let i = next.enemy_house_tiles.index_of(u);
                                assert(w.enemy_house_tiles[i] == u);
                                assert(w.enemy_house_tiles.contains(u));
                            }
                        }
                    }
                }
                lemma_camp_from(next, base, center, k + 1, left - 1);
                let after = next.camp_from(center, k + 1, left - 1);
                assert forall|i: int|
                    0 <= i < w.enemy_house_tiles.len() implies #[trigger] after.enemy_house_tiles[i]
                    == w.enemy_house_tiles[i] by {
                    assert(next.enemy_house_tiles[i] == w.enemy_house_tiles[i]);
                }
                assert(next.enemy_house_tiles[w.enemy_house_tiles.len() as int] == t);
            } else {
                lemma_camp_from(w, base, center, k + 1, left);
            },
            None => {
                lemma_camp_from(w, base, center, k + 1, left);
            },
        }
    }
}

/// One more enemy house, on a tile that is not on the list.
proof fn lemma_camp_house(w: WorldView, base: WorldView, t: Coord)
    requires
        settled_on(w, base),
        w.tile(t.0, t.1) == Tile::Grass,
        !w.enemy_house_tiles.contains(t),
    ensures
        settled_on(w.with_camp_house(t), base),
{
    let c = Cell { node: None, enemy_house: true, ..w.at(t.0, t.1) };
    let edited = w.with_cell(t.0, t.1, c);
    let next = w.with_camp_house(t);
    lemma_edit(w, t.0, t.1, c);
    assert(!on(w, Layer::EnemyHouse, t));
    lemma_added(w, edited, w.enemy_house_tiles, Layer::EnemyHouse, t);
    assert forall|layer: Layer, u: Coord| on(next, layer, u) == on(edited, layer, u) by {}
    assert(tidy(next)) by {
        assert forall|u: Coord| #[trigger] on(next, Layer::Hut, u) implies next.at(
            u.0,
            u.1,
        ).node is None by {
            assert(on(edited, Layer::Hut, u));
        }
    }
    lemma_others(edited, next, w.enemy_house_tiles.push(t), Layer::EnemyHouse);
    assert forall|layer: Layer, u: Coord| layer != Layer::EnemyHouse implies #[trigger] on(
        next,
        layer,
        u,
    ) == on(base, layer, u) by {
        assert(on(edited, layer, u) == on(w, layer, u));
        assert(on(w, layer, u) == on(base, layer, u));
    }
}

/// More land in view leaves the houses standing.
pub proof fn lemma_view(w: WorldView, base: WorldView, x0: i32, y0: i32, x1: i32, y1: i32)
    requires
        settled_on(w, base),
    ensures
        settled_on(w.ensured_region(x0, y0, x1, y1), base),
        w.ensured_region(x0, y0, x1, y1).enemy_house_tiles == w.enemy_house_tiles,
{
    lemma_region(w, x0, y0, x1, y1);
    lemma_settled_on(w, w.ensured_region(x0, y0, x1, y1), base);
}

pub proof fn lemma_plant(w: WorldView, base: WorldView, center: Coord)
    requires
        settled_on(w, base),
        !near_any_spec(w.enemy_house_tiles, center, CAMP_CLEARANCE as int),
    ensures
        ({
            let after = w.plant_camp(center, CAMP_HOUSES as int);
            &&& settled_on(after, base)
            &&& grown(w.enemy_house_tiles, after.enemy_house_tiles, center)
            &&& w.tile(center.0, center.1) == Tile::Grass ==> after.enemy_house_tiles.len()
                > w.enemy_house_tiles.len()
        }),
{
    let (x0, y0) = (shift_spec(center.0, -6), shift_spec(center.1, -6));
    let (x1, y1) = (shift_spec(center.0, 6), shift_spec(center.1, 6));
    lemma_view(w, base, x0, y0, x1, y1);
    law_loading_keeps_land(w, x0, y0, x1, y1, center.0, center.1);
    assert(spots_free(w.enemy_house_tiles, center, 0)) by {
        assert forall|j: int| 0 <= j < 9 implies ((#[trigger] camp_spot(center, j)) matches Some(t)
            ==> !w.enemy_house_tiles.contains(t)) by {
            if let Some(t) = camp_spot(center, j) {
                assert(-1 <= j % 3 - 1 <= 1 && -1 <= j / 3 - 1 <= 1);
                if w.enemy_house_tiles.contains(t) {
                    let i = w.enemy_house_tiles.index_of(t);
                    assert(within_spec(w.enemy_house_tiles[i], center, CAMP_CLEARANCE as int));
                }
            }
        }
    }
    lemma_camp_from(w.ensured_region(x0, y0, x1, y1), base, center, 0, CAMP_HOUSES as int);
}

/// No house lies farther east than that.
pub open spec fn west_of(houses: Seq<Coord>, x: int) -> bool {
    forall|i: int| 0 <= i < houses.len() ==> (#[trigger] houses[i]).0 <= x
}

/// Villages as they should be while they are being founded.
pub open spec fn in_order(c: Camps, base: WorldView) -> bool {
    &&& settled_on(c.world, base)
    &&& 0 <= c.villages <= ENEMY_VILLAGES
    &&& cluster_spec(c.world.enemy_house_tiles).len() == c.villages
    &&& west_of(c.world.enemy_house_tiles, CAMP_RANGE + 3 + 15 * c.villages)
}

proof fn lemma_peopled(c: Camps, base: WorldView, anchor: Coord)
    requires
        in_order(c, base),
        c.villages < ENEMY_VILLAGES,
        c.world.tile(anchor.0, anchor.1) == Tile::Grass,
        anchor.0 <= CAMP_RANGE + 3 + 15 * c.villages + 12,
        !near_any_spec(c.world.enemy_house_tiles, anchor, CAMP_CLEARANCE as int),
    ensures
        in_order(c.peopled(anchor), base),
        c.peopled(anchor).villages == c.villages + 1,
{
    lemma_plant(c.world, base, anchor);
    let before = c.world.enemy_house_tiles;
    let after = c.world.plant_camp(anchor, CAMP_HOUSES as int).enemy_house_tiles;
    let houses = after.skip(before.len() as int);
    assert(after =~= before + houses);
    assert forall|i: int, j: int| 0 <= i < before.len() && 0 <= j < houses.len() implies !within_spec(
        #[trigger] before[i],
        #[trigger] houses[j],
        crate::village::CLUSTER_GAP as int,
    ) by {
        assert(!within_spec(before[i], anchor, CAMP_CLEARANCE as int));
        assert(within_spec(after[before.len() + j], anchor, 3));
    }
    assert forall|i: int, j: int| 0 <= i < houses.len() && 0 <= j < houses.len() implies within_spec(
        #[trigger] houses[i],
        #[trigger] houses[j],
        crate::village::CLUSTER_GAP as int,
    ) by {
        assert(within_spec(after[before.len() + i], anchor, 3));
        assert(within_spec(after[before.len() + j], anchor, 3));
    }
    lemma_new_village(before, houses);
    assert forall|i: int| 0 <= i < after.len() implies (#[trigger] after[i]).0 <= CAMP_RANGE + 3 + 15
        * (c.villages + 1) by {
        if i < before.len() {
            assert(after[i] == before[i]);
        } else {
            assert(within_spec(after[i], anchor, 3));
        }
    }
}

/// A tile of a square is one that will do.
pub proof fn lemma_square(center: Coord, r: int, n: int, will_do: spec_fn(Coord) -> bool, t: Coord)
    requires
        crate::survey::square_spec(center, r, n, will_do).contains(t),
    ensures
        will_do(t),
    decreases n,
{
    if n > 0 {
        let before = crate::survey::square_spec(center, r, n - 1, will_do);
        let now = crate::survey::square_spec(center, r, n, will_do);
        let i = now.index_of(t);
        if i < before.len() {
            assert(before[i] == t);
            lemma_square(center, r, n - 1, will_do, t);
        }
    }
}

pub proof fn lemma_with_camp(c: Camps, base: WorldView, k: int)
    requires
        in_order(c, base),
    ensures
        in_order(c.with_camp(k), base),
{
    if c.villages < ENEMY_VILLAGES {
        let target = camp_target(c.rng, k);
        let r = CAMP_SEARCH as int;
        lemma_view(
            c.world,
            base,
            shift_spec(target.0, -r),
            shift_spec(target.1, -r),
            shift_spec(target.0, r),
            shift_spec(target.1, r),
        );
        let land = Camps {
            world: land_region(c.world, target, r),
            rng: camp_rng(c.rng),
            ..c
        };
        if let Some(anchor) = camp_site_spec(land.world, target) {
            let tiles = whole_square(target, r, open_grass(land.world));
            let clear = clear_site(land.world.enemy_house_tiles);
            law_nearest(tiles, target, clear);
            law_nearest(tiles, target, anything());
            assert(clear(anchor));
            assert(tiles.contains(anchor));
            lemma_square(target, r, (2 * r + 1) * (2 * r + 1), open_grass(land.world), anchor);
            lemma_peopled(land, base, anchor);
        }
    }
}

pub proof fn lemma_with_camps(c: Camps, base: WorldView, k: int)
    requires
        in_order(c, base),
    ensures
        in_order(c.with_camps(k), base),
    decreases k,
{
    if k > 0 {
        lemma_with_camps(c, base, k - 1);
        lemma_with_camp(c.with_camps(k - 1), base, k - 1);
    }
}

pub proof fn lemma_ensured_keeps(w: WorldView, c: Coord, x: i32, y: i32)
    requires
        w.wf(),
        w.loaded(x, y),
    ensures
        w.ensured(c).cell(x, y) == w.cell(x, y),
{
    let more = w.ensured(c);
    crate::world::lemma_ensured(w, c);
    let at = crate::world::chunk_coord(x, y);
    let i = w.coords.index_of(at);
    assert(more.coords[i] == at);
    let j = more.coords.index_of(at);
    assert(more.coords[j] == at);
    assert(i == j);
}

proof fn lemma_raise(w: WorldView, base: WorldView, t: Coord)
    requires
        settled_on(w, base),
    ensures
        ({
            let after = w.raise_land(t.0, t.1);
            &&& settled_on(after, base)
            &&& after.enemy_house_tiles == w.enemy_house_tiles
            &&& after.tile(t.0, t.1) == Tile::Grass
            &&& forall|u: i32, v: i32|
                w.tile(u, v) == Tile::Grass ==> #[trigger] after.tile(u, v) == Tile::Grass
        }),
{
    let after = w.raise_land(t.0, t.1);
    let land = w.with_tile(t.0, t.1);
    crate::register::lemma_tile(w, t.0, t.1);
    let c = Cell { tile: Tile::Grass, bridge: false, ..land.at(t.0, t.1) };
    law_edits_are_local(land, t.0, t.1, c, t.0, t.1);
    assert forall|u: i32, v: i32| w.tile(u, v) == Tile::Grass implies #[trigger] after.tile(u, v)
        == Tile::Grass by {
        lemma_ensured_keeps(w, crate::world::chunk_coord(t.0, t.1), u, v);
        law_edits_are_local(land, t.0, t.1, c, u, v);
    }
    lemma_edit_alike(land, t.0, t.1, c);
    lemma_settled_on(w, after, base);
}

proof fn lemma_patched(w: WorldView, base: WorldView, center: Coord, k: int)
    requires
        settled_on(w, base),
        0 <= k <= 81,
    ensures
        ({
            let after = patched(w, center, k);
            &&& settled_on(after, base)
            &&& after.enemy_house_tiles == w.enemy_house_tiles
            &&& k > 40 ==> after.tile(center.0, center.1) == Tile::Grass
        }),
    decreases k,
{
    if k > 0 {
        lemma_patched(w, base, center, k - 1);
        let before = patched(w, center, k - 1);
        match offset_spec(center, (k - 1) % PATCH as int - 4, (k - 1) / PATCH as int - 4) {
            Some(t) => {
                lemma_raise(before, base, t);
                if k == 41 {
                    assert(t == center);
                }
            },
            None => {},
        }
    }
}

proof fn lemma_eastmost(houses: Seq<Coord>, x: int)
    requires
        west_of(houses, x),
        55 <= x,
    ensures
        55 <= eastmost_spec(houses) <= x,
        west_of(houses, eastmost_spec(houses) as int),
    decreases houses.len(),
{
    if houses.len() > 0 {
        let front = houses.drop_last();
        assert forall|i: int| 0 <= i < front.len() implies (#[trigger] front[i]).0 <= x by {
            assert(houses[i].0 <= x);
        }
        assert(houses[houses.len() - 1].0 <= x);
        lemma_eastmost(front, x);
        assert forall|i: int| 0 <= i < houses.len() implies (#[trigger] houses[i]).0
            <= eastmost_spec(houses) by {
            if i < front.len() {
                assert(front[i] == houses[i]);
            }
        }
    }
}

proof fn lemma_new_ground(c: Camps, base: WorldView)
    requires
        in_order(c, base),
    ensures
        in_order(c.with_new_ground(), base),
        c.with_new_ground().villages == if c.villages < ENEMY_VILLAGES {
            c.villages + 1
        } else {
            c.villages
        },
{
    if c.villages < ENEMY_VILLAGES {
        let houses = c.world.enemy_house_tiles;
        let t = new_ground(houses);
        lemma_eastmost(houses, CAMP_RANGE + 3 + 15 * c.villages);
        lemma_patched(c.world, base, t, PATCH * PATCH);
        let land = Camps { world: patched(c.world, t, PATCH * PATCH), ..c };
        assert(!near_any_spec(houses, t, CAMP_CLEARANCE as int)) by {
            assert forall|i: int| 0 <= i < houses.len() implies !within_spec(
                #[trigger] houses[i],
                t,
                CAMP_CLEARANCE as int,
            ) by {
                assert(houses[i].0 <= eastmost_spec(houses));
            }
        }
        lemma_peopled(land, base, t);
    }
}

proof fn lemma_filled(c: Camps, base: WorldView, k: int)
    requires
        in_order(c, base),
        0 <= k,
    ensures
        in_order(c.filled(k), base),
        c.villages + k >= ENEMY_VILLAGES ==> c.filled(k).villages == ENEMY_VILLAGES,
        c.filled(k).villages >= c.villages,
        c.filled(k).villages >= ENEMY_VILLAGES || c.filled(k).villages == c.villages + k,
    decreases k,
{
    if k > 0 {
        lemma_filled(c, base, k - 1);
        lemma_new_ground(c.filled(k - 1), base);
    }
}

/// The first village on land without buildings: the list of its houses is exact.
pub proof fn lemma_first_village(w: WorldView, anchor: Coord, k: int)
    requires
        tidy(w),
        w.enemy_house_tiles.len() == 0,
        forall|layer: Layer, t: Coord| !(#[trigger] on(w, layer, t)),
    ensures
        ({
            let (after, houses) = settled(w, anchor, k);
            &&& tidy(after)
            &&& after.enemy_house_tiles.len() == 0
            &&& exact(after, houses, Layer::House)
            &&& forall|layer: Layer, t: Coord|
                layer != Layer::House ==> !(#[trigger] on(after, layer, t))
        }),
    decreases k,
{
    let (after, houses) = settled(w, anchor, k);
    if k > 0 {
        lemma_first_village(w, anchor, k - 1);
        let (before, old_houses) = settled(w, anchor, k - 1);
        if let Some(t) = offset_spec(
            anchor,
            crate::founding::plot_spec(k - 1).0,
            crate::founding::plot_spec(k - 1).1,
        ) {
            if before.is_open_grass(t.0, t.1) {
                crate::register::lemma_tile(before, t.0, t.1);
                let land = before.with_tile(t.0, t.1);
                lemma_edit(land, t.0, t.1, Cell { house: true, ..land.at(t.0, t.1) });
                assert(!on(before, Layer::House, t));
                lemma_added(before, after, old_houses, Layer::House, t);
                assert forall|layer: Layer, u: Coord| layer != Layer::House implies !(
                #[trigger] on(after, layer, u)) by {
                    assert(!on(before, layer, u));
                    assert(on(land, layer, u) == on(before, layer, u));
                    if u == t {
                        assert(!on(land, layer, t));
                    }
                }
            }
        }
    }
}

pub proof fn lemma_first_land(seed: i32)
    ensures
        tidy(first_land(seed)),
        first_land(seed).enemy_house_tiles.len() == 0,
        forall|layer: Layer, t: Coord| !(#[trigger] on(first_land(seed), layer, t)),
{
    let blank = WorldView {
        seed,
        coords: Seq::empty(),
        cells: Seq::empty(),
        enemy_house_tiles: Seq::empty(),
    };
    let m = ENSURE_MARGIN;
    lemma_region(blank, (-m) as i32, (-m) as i32, m, m);
    assert forall|layer: Layer, t: Coord| !(#[trigger] on(first_land(seed), layer, t)) by {
        assert(!on(blank, layer, t));
    }
}

/// The enemy's villages as they are when a game begins.
proof fn lemma_founded(seed: i32)
    ensures
        ({
            let g = GameView::founded(seed);
            let land = first_land(seed);
            let (world, houses) = settled(land, first_anchor(land), 5);
            &&& settled_on(g.world, world)
            &&& cluster_spec(g.world.enemy_house_tiles).len() == ENEMY_VILLAGES
            &&& g.player_house_tiles == houses
            &&& exact(world, houses, Layer::House)
            &&& forall|layer: Layer, t: Coord|
                layer != Layer::House ==> !(#[trigger] on(world, layer, t))
        }),
{
    let land = first_land(seed);
    lemma_first_land(seed);
    let anchor = first_anchor(land);
    lemma_first_village(land, anchor, 5);
    let world = settled(land, anchor, 5).0;
    let start = Camps {
        world,
        entities: villagers(whole_square(anchor, 8, walks(world, crate::chunk::NO_OWNER)), 6),
        villages: 0,
        rng: ((seed as u64) ^ CAMP_SALT) | 1,
    };
    assert(exact(world, world.enemy_house_tiles, Layer::EnemyHouse)) by {
        assert forall|t: Coord| world.enemy_house_tiles.contains(t) == on(
            world,
            Layer::EnemyHouse,
            t,
        ) by {}
    }
    lemma_with_camps(start, world, CAMP_TRIES as int);
    let searched = start.with_camps(CAMP_TRIES as int);
    lemma_filled(searched, world, ENEMY_VILLAGES as int);
    assert(GameView::founded(seed).world == searched.filled(ENEMY_VILLAGES as int).world);
}

/// Whatever the seed, the enemy begins with four villages, and each of them has
/// houses that stand on the land.
pub proof fn law_four_enemy_villages(seed: i32)
    ensures
        ({
            let w = GameView::founded(seed).world;
            let villages = cluster_spec(w.enemy_house_tiles);
            &&& villages.len() == ENEMY_VILLAGES
            &&& forall|i: int| 0 <= i < villages.len() ==> (#[trigger] villages[i]).len() > 0
            &&& forall|i: int, j: int|
                0 <= i < villages.len() && 0 <= j < villages[i].len() ==> stands(
                    w,
                    #[trigger] villages[i][j],
                )
        }),
{
    lemma_founded(seed);
    let w = GameView::founded(seed).world;
    crate::village::law_villages(w.enemy_house_tiles);
    let villages = cluster_spec(w.enemy_house_tiles);
    assert forall|i: int, j: int| 0 <= i < villages.len() && 0 <= j < villages[i].len() implies stands(
        w,
        #[trigger] villages[i][j],
    ) by {
        let h = villages[i][j];
        assert(villages[i].contains(h));
        assert(crate::village::housed(villages, h));
        assert(w.enemy_house_tiles.contains(h));
        assert(on(w, Layer::EnemyHouse, h));
    }
}

/// A game begins with exact lists of buildings.
pub proof fn law_founding_fills_the_lists(seed: i32)
    ensures
        registered(GameView::founded(seed)),
{
    lemma_founded(seed);
    let g = GameView::founded(seed);
    let land = first_land(seed);
    let world = settled(land, first_anchor(land), 5).0;
    lemma_others(world, g.world, g.player_house_tiles, Layer::House);
    lemma_scanned(g.world, Layer::Hut);
    assert(exact(g.world, g.cave_tiles, Layer::Cave)) by {
        assert forall|t: Coord| g.cave_tiles.contains(t) == on(g.world, Layer::Cave, t) by {
            assert(on(g.world, Layer::Cave, t) == on(world, Layer::Cave, t));
        }
    }
}

} // verus!
