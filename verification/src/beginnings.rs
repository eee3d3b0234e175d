//! How a game looks when it begins: the land, the first village, its people, and those of
//! the enemy's.

use vstd::prelude::*;
use crate::chunk::{Cell, Resource, Tile, NO_OWNER};
use crate::float::F32;
use crate::founding::{first_anchor, first_land, garrison, plot_spec, settled, villagers};
use crate::game::{BuildMode, GameView};
use crate::grid::{manhattan_spec, offset_spec, within_spec};
use crate::noise::{elevation_spec, scatter_spec};
use crate::people::has_door;
use crate::survey::{
    adjacent_walkable_spec, anything, land_anchor_spec, law_nearest, open_grass, square_spec,
    whole_square,
};
use crate::terrain::{chunk_spec, ground_cells};
use crate::unit::{Faction, GatherPriority, Job, Priority};
use crate::vec2::{tile_center_spec, Coord};
use crate::works::bare_grass;
use crate::world::WorldView;

verus! {

// --- squares -----------------------------------------------------------------------------

proof fn lemma_place_in_square(center: Coord, r: int, k: int)
    requires
        0 <= r,
        0 <= k < (2 * r + 1) * (2 * r + 1),
    ensures
        -r <= k % (2 * r + 1) - r <= r,
        -r <= k / (2 * r + 1) - r <= r,
{
    let side = 2 * r + 1;
    assert(0 <= k % side < side && 0 <= k / side < side) by (nonlinear_arith)
        requires
            0 <= k < side * side,
            side > 0,
    ;
}

proof fn lemma_in_square(center: Coord, r: int, n: int, will_do: spec_fn(Coord) -> bool, t: Coord)
    requires
        0 <= r,
        n <= (2 * r + 1) * (2 * r + 1),
        square_spec(center, r, n, will_do).contains(t),
    ensures
        within_spec(t, center, r),
        will_do(t),
    decreases n,
{
    if n > 0 {
        let before = square_spec(center, r, n - 1, will_do);
        let now = square_spec(center, r, n, will_do);
        let i = now.index_of(t);
        lemma_place_in_square(center, r, n - 1);
        if i < before.len() {
            assert(before[i] == t);
            lemma_in_square(center, r, n - 1, will_do, t);
        }
    }
}

proof fn lemma_square_has(
    center: Coord,
    r: int,
    n: int,
    will_do: spec_fn(Coord) -> bool,
    t: Coord,
    k: int,
)
    requires
        0 <= k < n,
        offset_spec(center, k % (2 * r + 1) - r, k / (2 * r + 1) - r) == Some(t),
        will_do(t),
    ensures
        square_spec(center, r, n, will_do).contains(t),
    decreases n,
{
    let before = square_spec(center, r, n - 1, will_do);
    let now = square_spec(center, r, n, will_do);
    if k == n - 1 {
        assert(now[before.len() as int] == t);
    } else {
        lemma_square_has(center, r, n - 1, will_do, t, k);
        let i = before.index_of(t);
        assert(now[i] == t);
    }
}

/// A square is searched whole: what is found in it is all the tiles that will do, and no
/// others.
pub proof fn law_squares_are_searched_whole(
    center: Coord,
    r: int,
    will_do: spec_fn(Coord) -> bool,
    t: Coord,
)
    requires
        0 <= r,
    ensures
        whole_square(center, r, will_do).contains(t) == (within_spec(t, center, r) && will_do(t)),
{
    let side = 2 * r + 1;
    if whole_square(center, r, will_do).contains(t) {
        lemma_in_square(center, r, side * side, will_do, t);
    }
    if within_spec(t, center, r) && will_do(t) {
        let dx = t.0 - center.0 + r;
        let dy = t.1 - center.1 + r;
        let k = dy * side + dx;
        assert(0 <= k < side * side) by (nonlinear_arith)
            requires
                0 <= dx < side,
                0 <= dy < side,
                k == dy * side + dx,
        ;
        vstd::arithmetic::div_mod::lemma_fundamental_div_mod_converse(k, side, dy, dx);
        lemma_square_has(center, r, side * side, will_do, t, k);
    }
}

/// Land is looked for and found: the nearest bare grass in the square, wherever there is any.
pub proof fn law_land_is_found(w: WorldView, near: Coord, r: int, t: Coord)
    requires
        0 <= r,
    ensures
        match land_anchor_spec(w, near, r) {
            Some(a) => within_spec(a, near, r) && bare_grass(w, a.0, a.1) && (within_spec(
                t,
                near,
                r,
            ) && bare_grass(w, t.0, t.1) ==> manhattan_spec(a, near) <= manhattan_spec(t, near)),
            None => !(within_spec(t, near, r) && bare_grass(w, t.0, t.1)),
        },
{
    let tiles = whole_square(near, r, open_grass(w));
    law_nearest(tiles, near, anything());
    law_squares_are_searched_whole(near, r, open_grass(w), t);
    if let Some(a) = land_anchor_spec(w, near, r) {
        law_squares_are_searched_whole(near, r, open_grass(w), a);
    }
    if tiles.contains(t) {
        let k = tiles.index_of(t);
        assert(anything()(tiles[k]));
    }
}

// --- the land ----------------------------------------------------------------------------

/// Untouched land is water below sea level and grass above it. Trees and rocks stand on
/// grass alone, five to a node, trees where the ground is rich and rocks where it is poor;
/// nobody has built anything.
pub proof fn law_untouched_land(seed: i32, cx: i32, cy: i32, j: int)
    requires
        0 <= j < 1024,
    ensures
        ({
            let c = chunk_spec(seed, cx, cy)[j];
            let t = crate::chunk::place_spec(cx, cy, j);
            let e = elevation_spec(seed, t.0, t.1);
            let s = scatter_spec(seed, t.0, t.1);
            let water = e.lt_spec(F32 { bits: 0xbdf5_c28f });
            &&& (c.tile == Tile::Water) == water
            &&& (c.node matches Some(n) ==> !water && n.amount == 5)
            &&& (c.node matches Some(n) && n.kind == Resource::Wood) == (!water && (F32 {
                bits: 0x3ee6_6666,
            }).lt_spec(s))
            &&& (c.node matches Some(n) && n.kind == Resource::Stone) == (!water && s.lt_spec(
                F32 { bits: 0xbf00_0000 },
            ) && !(F32 { bits: 0x3ee6_6666 }).lt_spec(s))
            &&& !c.house && !c.enemy_house && !c.cave && c.wall is None && c.hut is None
        }),
{
    let ground = ground_cells(seed, cx, cy);
    let c = chunk_spec(seed, cx, cy)[j];
    assert(c == (Cell { bridge: c.bridge, ..ground[j] }));
}

// --- the player's village ----------------------------------------------------------------

/// The first village lies at the walkable tile nearest the origin, where there is one within
/// 24 tiles.
pub proof fn law_first_village_is_near_the_origin(w: WorldView, t: Coord)
    requires
        within_spec(t, (0, 0), 24),
        w.walkable_for(NO_OWNER, t.0, t.1),
    ensures
        ({
            let a = first_anchor(w);
            &&& within_spec(a, (0, 0), 24)
            &&& w.walkable_for(NO_OWNER, a.0, a.1)
            &&& manhattan_spec(a, (0, 0)) <= manhattan_spec(t, (0, 0))
        }),
{
    let walk = crate::pathfind::walks(w, NO_OWNER);
    let tiles = whole_square((0, 0), 24, walk);
    law_nearest(tiles, (0, 0), anything());
    law_squares_are_searched_whole((0, 0), 24, walk, t);
    let k = tiles.index_of(t);
    assert(anything()(tiles[k]));
    law_squares_are_searched_whole((0, 0), 24, walk, first_anchor(w));
}

proof fn lemma_houses(w: WorldView, anchor: Coord, k: int, t: Coord)
    requires
        w.wf(),
    ensures
        ({
            let (after, houses) = settled(w, anchor, k);
            &&& after.wf()
            &&& houses.contains(t) ==> within_spec(t, anchor, 3) && bare_grass(w, t.0, t.1)
                && after.cell(t.0, t.1) == Some(Cell { house: true, ..w.at(t.0, t.1) })
            &&& !houses.contains(t) ==> after.cell(t.0, t.1) == w.cell(t.0, t.1)
        }),
    decreases k,
{
    if k > 0 {
        lemma_houses(w, anchor, k - 1, t);
        let (before, old_houses) = settled(w, anchor, k - 1);
        let (after, houses) = settled(w, anchor, k);
        let d = plot_spec(k - 1);
        if let Some(p) = offset_spec(anchor, d.0, d.1) {
            lemma_houses(w, anchor, k - 1, p);
            if before.is_open_grass(p.0, p.1) {
                let c = Cell { house: true, ..before.at(p.0, p.1) };
                crate::works::lemma_changed(before, p.0, p.1, c);
                assert(houses == old_houses.push(p));
                if t == p {
                    assert(houses[old_houses.len() as int] == t);
                    if old_houses.contains(t) {
                        assert(before.at(p.0, p.1).house);
                    }
                } else {
                    if houses.contains(t) {
                        let i = houses.index_of(t);
                        assert(old_houses[i] == t);
                    }
                    if old_houses.contains(t) {
                        let i = old_houses.index_of(t);
                        assert(houses[i] == t);
                    }
                }
            }
        }
    }
}

/// The first houses stand within three tiles of the middle of the village, on what was bare
/// grass; nothing else on the land changes. The middle itself has one, where it is bare.
pub proof fn law_first_houses(w: WorldView, anchor: Coord, t: Coord)
    requires
        w.wf(),
    ensures
        ({
            let (after, houses) = settled(w, anchor, 5);
            &&& houses.contains(t) ==> within_spec(t, anchor, 3) && bare_grass(w, t.0, t.1)
                && after.cell(t.0, t.1) == Some(Cell { house: true, ..w.at(t.0, t.1) })
            &&& !houses.contains(t) ==> after.cell(t.0, t.1) == w.cell(t.0, t.1)
            &&& bare_grass(w, anchor.0, anchor.1) ==> houses.contains(anchor)
            &&& houses.len() <= 5
        }),
{
    lemma_houses(w, anchor, 5, t);
    reveal_with_fuel(settled, 6);
    let one = settled(w, anchor, 1).1;
    assert(offset_spec(anchor, 0, 0) == Some(anchor));
    if bare_grass(w, anchor.0, anchor.1) {
        assert(one == Seq::<Coord>::empty().push(anchor));
        let all = settled(w, anchor, 5).1;
        assert(all[0] == anchor);
    }
}

/// The village begins with four farmers and two knights of the player's, on every third of
/// the free tiles, where there are sixteen of them; with as many of the six as find room,
/// farmers first, where there are fewer.
pub proof fn law_first_villagers(spots: Seq<Coord>, j: int)
    ensures
        ({
            let people = villagers(spots, 6);
            &&& spots.len() >= 16 ==> people.len() == 6
            &&& people.len() <= 6
            &&& 0 <= j < people.len() ==> {
                &&& 3 * j < spots.len()
                &&& people[j].faction == Faction::Player
                &&& people[j].job == if j < 4 {
                    Job::Farmer
                } else {
                    Job::Knight
                }
                &&& people[j].pos == tile_center_spec(spots[3 * j])
                &&& people[j].hp == people[j].max_hp
            }
        }),
{
    reveal_with_fuel(villagers, 7);
}

proof fn lemma_garrison(w: WorldView, houses: Seq<Coord>, k: int, j: int)
    requires
        houses.len() > 0,
        0 <= k,
        forall|i: int| 0 <= i < houses.len() ==> has_door(w, #[trigger] houses[i]),
    ensures
        garrison(w, houses, k).len() == k,
        0 <= j < k ==> {
            let e = garrison(w, houses, k)[j];
            &&& e.faction == Faction::Enemy
            &&& e.job == if j < 4 {
                Job::Farmer
            } else {
                Job::Knight
            }
            &&& e.hp == e.max_hp
            &&& exists|h: Coord, d: Coord| #[trigger]
                houses.contains(h) && e.pos == #[trigger] tile_center_spec(d) && within_spec(
                    d,
                    h,
                    1,
                ) && w.walkable_for(NO_OWNER, d.0, d.1)
        },
    decreases k,
{
    if k > 0 {
        lemma_garrison(w, houses, k - 1, j);
        let n = houses.len() as int;
        let i = (k - 1) % n;
        assert(0 <= i < n) by (nonlinear_arith)
            requires
                i == (k - 1) % n,
                n > 0,
        ;
        let h = houses[i];
        assert(has_door(w, houses[i]));
        crate::people::lemma_door(h, 0, crate::pathfind::walks(w, NO_OWNER));
        let d = adjacent_walkable_spec(w, h.0, h.1)->0;
        assert(houses.contains(h));
        if j == k - 1 {
            assert(garrison(w, houses, k)[j].pos == tile_center_spec(d));
        } else if 0 <= j < k - 1 {
            assert(garrison(w, houses, k)[j] == garrison(w, houses, k - 1)[j]);
        }
    }
}

/// An enemy village begins with four farmers and two knights of the enemy's, each next to one
/// of its houses. (The houses must have doors.)
pub proof fn law_garrisons(w: WorldView, houses: Seq<Coord>, j: int)
    requires
        houses.len() > 0,
        forall|i: int| 0 <= i < houses.len() ==> has_door(w, #[trigger] houses[i]),
    ensures
        garrison(w, houses, 6).len() == 6,
        0 <= j < 6 ==> {
            let e = garrison(w, houses, 6)[j];
            &&& e.faction == Faction::Enemy
            &&& e.job == if j < 4 {
                Job::Farmer
            } else {
                Job::Knight
            }
            &&& e.hp == e.max_hp
            &&& exists|h: Coord, d: Coord| #[trigger]
                houses.contains(h) && e.pos == #[trigger] tile_center_spec(d) && within_spec(
                    d,
                    h,
                    1,
                ) && w.walkable_for(NO_OWNER, d.0, d.1)
        },
{
    lemma_garrison(w, houses, 6, j);
}

/// What a new game has in store: twenty wood and twenty stone, no losses and no victories, no
/// flag and no orders; and the player's people and houses come first.
pub proof fn law_new_game(seed: i32)
    ensures
        ({
            let g = GameView::founded(seed);
            let land = first_land(seed);
            let anchor = first_anchor(land);
            let (world, houses) = settled(land, anchor, 5);
            let people = villagers(
                whole_square(anchor, 8, crate::pathfind::walks(world, NO_OWNER)),
                6,
            );
            &&& g.wood == 20 && g.stone == 20
            &&& g.enemies_defeated == 0 && g.units_lost == 0
            &&& g.rally_point is None
            &&& g.build_mode == BuildMode::House
            &&& g.priority == Priority::Agriculture
            &&& g.gather_priority == GatherPriority::Balanced
            &&& g.hut_orders.len() == 0 && g.saplings.len() == 0 && g.player_bridges.len() == 0
                && g.cave_tiles.len() == 0
            &&& g.player_house_tiles == houses
            &&& g.world.seed == seed
            &&& people.len() <= g.entities.len()
            &&& g.entities.take(people.len() as int) == people
            &&& forall|k: int|
                people.len() <= k < g.entities.len() ==> (#[trigger] g.entities[k]).faction
                    == Faction::Enemy
        }),
{
    let land = first_land(seed);
    let anchor = first_anchor(land);
    let world = settled(land, anchor, 5).0;
    let start = crate::scatter::before_the_villages(seed);
    let people = start.entities;
    lemma_seed_region(
        WorldView {
            seed,
            coords: Seq::empty(),
            cells: Seq::empty(),
            enemy_house_tiles: Seq::empty(),
        },
        (-40) as i32,
        (-40) as i32,
        40,
        40,
    );
    lemma_seed_settled(land, anchor, 5);
    lemma_camps(start, 48);
    let found = start.with_camps(48);
    lemma_more(found, 4);
    let g = GameView::founded(seed);
    assert(g.entities.take(people.len() as int) =~= people);
}

/// The same seed, and the same people before those of the enemy's that join.
pub open spec fn joined(a: crate::founding::Camps, b: crate::founding::Camps) -> bool {
    &&& b.world.seed == a.world.seed
    &&& a.entities.len() <= b.entities.len()
    &&& forall|k: int| 0 <= k < a.entities.len() ==> #[trigger] b.entities[k] == a.entities[k]
    &&& forall|k: int|
        a.entities.len() <= k < b.entities.len() ==> (#[trigger] b.entities[k]).faction
            == Faction::Enemy
}

proof fn lemma_joined(
    a: crate::founding::Camps,
    b: crate::founding::Camps,
    c: crate::founding::Camps,
)
    requires
        joined(a, b),
        joined(b, c),
    ensures
        joined(a, c),
{
    assert forall|k: int| 0 <= k < a.entities.len() implies #[trigger] c.entities[k]
        == a.entities[k] by {
        assert(b.entities[k] == a.entities[k]);
    }
    assert forall|k: int| a.entities.len() <= k < c.entities.len() implies (
    #[trigger] c.entities[k]).faction == Faction::Enemy by {
        if k < b.entities.len() {
            assert(c.entities[k] == b.entities[k]);
        }
    }
}

proof fn lemma_garrison_side(w: WorldView, houses: Seq<Coord>, k: int)
    ensures
        forall|j: int|
            0 <= j < garrison(w, houses, k).len() ==> (#[trigger] garrison(
                w,
                houses,
                k,
            )[j]).faction == Faction::Enemy,
    decreases k,
{
    if k > 0 {
        lemma_garrison_side(w, houses, k - 1);
    }
}

proof fn lemma_seed_row(w: WorldView, cy: int, cx0: int, cx1: int)
    ensures
        w.ensured_row(cy, cx0, cx1).seed == w.seed,
    decreases cx1 - cx0 + 1,
{
    if cx0 <= cx1 {
        lemma_seed_row(w.ensured((cx0 as i32, cy as i32)), cy, cx0 + 1, cx1);
    }
}

proof fn lemma_seed_rows(w: WorldView, cy0: int, cy1: int, cx0: int, cx1: int)
    ensures
        w.ensured_rows(cy0, cy1, cx0, cx1).seed == w.seed,
    decreases cy1 - cy0 + 1,
{
    if cy0 <= cy1 {
        lemma_seed_row(w, cy0, cx0, cx1);
        lemma_seed_rows(w.ensured_row(cy0, cx0, cx1), cy0 + 1, cy1, cx0, cx1);
    }
}

proof fn lemma_seed_region(w: WorldView, a: i32, b: i32, c: i32, d: i32)
    ensures
        w.ensured_region(a, b, c, d).seed == w.seed,
{
    lemma_seed_rows(
        w,
        crate::chunk::chunk_of_spec(b as int),
        crate::chunk::chunk_of_spec(d as int),
        crate::chunk::chunk_of_spec(a as int),
        crate::chunk::chunk_of_spec(c as int),
    );
}

proof fn lemma_seed_settled(w: WorldView, anchor: Coord, k: int)
    ensures
        settled(w, anchor, k).0.seed == w.seed,
    decreases k,
{
    if k > 0 {
        lemma_seed_settled(w, anchor, k - 1);
    }
}

proof fn lemma_seed_camp(w: WorldView, center: Coord, k: int, left: int)
    ensures
        w.camp_from(center, k, left).seed == w.seed,
    decreases 9 - k,
{
    if k < 9 && left > 0 {
        match crate::world::camp_spot(center, k) {
            Some(t) => if w.tile(t.0, t.1) == Tile::Grass {
                lemma_seed_camp(w.with_camp_house(t), center, k + 1, left - 1);
            } else {
                lemma_seed_camp(w, center, k + 1, left);
            },
            None => {
                lemma_seed_camp(w, center, k + 1, left);
            },
        }
    }
}

proof fn lemma_peopled(c: crate::founding::Camps, anchor: Coord)
    ensures
        joined(c, c.peopled(anchor)),
{
    let (x0, y0) = (
        crate::grid::shift_spec(anchor.0, -6),
        crate::grid::shift_spec(anchor.1, -6),
    );
    let (x1, y1) = (crate::grid::shift_spec(anchor.0, 6), crate::grid::shift_spec(anchor.1, 6));
    lemma_seed_region(c.world, x0, y0, x1, y1);
    lemma_seed_camp(c.world.ensured_region(x0, y0, x1, y1), anchor, 0, 4);
    let w = c.world.plant_camp(anchor, 4);
    let houses = w.enemy_house_tiles.skip(c.world.enemy_house_tiles.len() as int);
    lemma_garrison_side(w, houses, 6);
}

proof fn lemma_camps(c: crate::founding::Camps, k: int)
    ensures
        joined(c, c.with_camps(k)),
    decreases k,
{
    if k > 0 {
        lemma_camps(c, k - 1);
        let b = c.with_camps(k - 1);
        if b.villages < 4 {
            let target = crate::founding::camp_target(b.rng, k - 1);
            let world = crate::survey::land_region(b.world, target, 16);
            lemma_seed_region(
                b.world,
                crate::grid::shift_spec(target.0, -16),
                crate::grid::shift_spec(target.1, -16),
                crate::grid::shift_spec(target.0, 16),
                crate::grid::shift_spec(target.1, 16),
            );
            let land = crate::founding::Camps {
                world,
                rng: crate::founding::camp_rng(b.rng),
                ..b
            };
            assert(joined(b, land));
            if let Some(anchor) = crate::founding::camp_site_spec(world, target) {
                lemma_peopled(land, anchor);
                lemma_joined(b, land, land.peopled(anchor));
            }
        }
        lemma_joined(c, b, c.with_camps(k));
    }
}

proof fn lemma_seed_patched(w: WorldView, center: Coord, k: int)
    ensures
        crate::founding::patched(w, center, k).seed == w.seed,
    decreases k,
{
    if k > 0 {
        lemma_seed_patched(w, center, k - 1);
    }
}

proof fn lemma_more(c: crate::founding::Camps, k: int)
    ensures
        joined(c, c.filled(k)),
    decreases k,
{
    if k > 0 {
        lemma_more(c, k - 1);
        let b = c.filled(k - 1);
        if b.villages < 4 {
            let t = crate::founding::new_ground(b.world.enemy_house_tiles);
            lemma_seed_patched(b.world, t, 81);
            let land = crate::founding::Camps {
                world: crate::founding::patched(b.world, t, 81),
                ..b
            };
            assert(joined(b, land));
            lemma_peopled(land, t);
            lemma_joined(b, land, land.peopled(t));
        }
        lemma_joined(c, b, c.filled(k));
    }
}

} // verus!
