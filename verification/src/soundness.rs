//! What is true of the land in every game that was not tampered with: nodes hold
//! what a node can hold, walls and huts belong to one of the two factions, and no
//! hut is overfull. And a save keeps such land exactly.

use vstd::prelude::*;
use crate::battle::{clash_spec, walls_hit, wounded};
use crate::behavior::{StepEvent, HUT_CAPACITY};
use crate::capture::handed_over;
use crate::chunk::{Cell, Hut, Node, Resource, Tile, Wall, CHUNK_TILES};
use crate::float::F32;
use crate::founding::{first_anchor, first_land, settled, Camps};
use crate::game::{swap_removed, GameView, Sapling};
use crate::roundtrip::{law_save_keeps_land, plain, reloaded};
use crate::survey::land_region;
use crate::terrain::{chunk_spec, ground_cells, NODE_AMOUNT};
use crate::unit::{owner_of_spec, Faction};
use crate::vec2::Coord;
use crate::village::cluster_spec;
use crate::world::{camp_spot, chunk_coord, lemma_place, local_index, WorldView};

verus! {

/// The tile holds nothing that the game would not put there.
pub open spec fn sound_cell(c: Cell) -> bool {
    &&& c.node matches Some(n) ==> n.amount <= NODE_AMOUNT
    &&& c.wall matches Some(w) ==> w.owner <= 1
    &&& c.hut matches Some(h) ==> h.owner <= 1 && h.occupants <= HUT_CAPACITY
}

pub open spec fn sound(w: WorldView) -> bool {
    &&& w.wf()
    &&& forall|k: int, j: int|
        0 <= k < w.cells.len() && 0 <= j < CHUNK_TILES ==> sound_cell(#[trigger] w.cells[k][j])
}

proof fn lemma_at(w: WorldView, x: i32, y: i32)
    requires
        sound(w),
        w.loaded(x, y),
    ensures
        sound_cell(w.at(x, y)),
{
    lemma_place(x, y);
    let k = w.coords.index_of(chunk_coord(x, y));
    assert(sound_cell(w.cells[k][local_index(x, y)]));
}

proof fn lemma_with_cell(w: WorldView, x: i32, y: i32, c: Cell)
    requires
        sound(w),
        w.loaded(x, y),
        sound_cell(c),
    ensures
        sound(w.with_cell(x, y, c)),
        w.with_cell(x, y, c).coords == w.coords,
{
    lemma_place(x, y);
    let after = w.with_cell(x, y, c);
    let i = w.coords.index_of(chunk_coord(x, y));
    assert(w.coords[i] == chunk_coord(x, y));
    assert forall|k: int, j: int|
        0 <= k < after.cells.len() && 0 <= j < CHUNK_TILES implies sound_cell(
        #[trigger] after.cells[k][j],
    ) by {
        if k == i && j == local_index(x, y) {
        } else {
            assert(after.cells[k][j] == w.cells[k][j]);
        }
    }
}

proof fn lemma_generated(seed: i32, cx: i32, cy: i32, j: int)
    requires
        0 <= j < CHUNK_TILES,
    ensures
        sound_cell(chunk_spec(seed, cx, cy)[j]),
        chunk_spec(seed, cx, cy).len() == CHUNK_TILES,
{
    let ground = ground_cells(seed, cx, cy);
    assert(chunk_spec(seed, cx, cy)[j].node == ground[j].node);
    assert(chunk_spec(seed, cx, cy)[j].wall == ground[j].wall);
    assert(chunk_spec(seed, cx, cy)[j].hut == ground[j].hut);
}

proof fn lemma_ensured(w: WorldView, c: Coord)
    requires
        sound(w),
    ensures
        sound(w.ensured(c)),
        w.ensured(c).coords.contains(c),
{
    let after = w.ensured(c);
    if !w.coords.contains(c) {
        lemma_generated(w.seed, c.0, c.1, 0);
        assert(after.coords[w.coords.len() as int] == c);
        assert forall|i: int, j: int| 0 <= i < j < after.coords.len() implies after.coords[i]
            != after.coords[j] by {
            assert(w.coords[i] == after.coords[i]);
            if j < w.coords.len() {
                assert(w.coords[j] == after.coords[j]);
            } else {
                assert(w.coords.contains(w.coords[i]));
            }
        }
        assert forall|k: int, j: int|
            0 <= k < after.cells.len() && 0 <= j < CHUNK_TILES implies sound_cell(
            #[trigger] after.cells[k][j],
        ) by {
            if k < w.cells.len() {
                assert(after.cells[k][j] == w.cells[k][j]);
            } else {
                lemma_generated(w.seed, c.0, c.1, j);
            }
        }
    }
}

proof fn lemma_row(w: WorldView, cy: int, cx0: int, cx1: int)
    requires
        sound(w),
    ensures
        sound(w.ensured_row(cy, cx0, cx1)),
    decreases cx1 - cx0 + 1,
{
    if cx0 <= cx1 {
        lemma_ensured(w, (cx0 as i32, cy as i32));
        lemma_row(w.ensured((cx0 as i32, cy as i32)), cy, cx0 + 1, cx1);
    }
}

proof fn lemma_rows(w: WorldView, cy0: int, cy1: int, cx0: int, cx1: int)
    requires
        sound(w),
    ensures
        sound(w.ensured_rows(cy0, cy1, cx0, cx1)),
    decreases cy1 - cy0 + 1,
{
    if cy0 <= cy1 {
        lemma_row(w, cy0, cx0, cx1);
        lemma_rows(w.ensured_row(cy0, cx0, cx1), cy0 + 1, cy1, cx0, cx1);
    }
}

proof fn lemma_region(w: WorldView, a: i32, b: i32, c: i32, d: i32)
    requires
        sound(w),
    ensures
        sound(w.ensured_region(a, b, c, d)),
{
    lemma_rows(
        w,
        crate::chunk::chunk_of_spec(b as int),
        crate::chunk::chunk_of_spec(d as int),
        crate::chunk::chunk_of_spec(a as int),
        crate::chunk::chunk_of_spec(c as int),
    );
}

proof fn lemma_setters(w: WorldView, x: i32, y: i32, owner: u8, hp: F32, kind: Resource, v: bool)
    requires
        sound(w),
        owner <= 1,
    ensures
        sound(w.set_house(x, y, v)),
        sound(w.convert_house(x, y, owner)),
        sound(w.set_bridge(x, y, v)),
        sound(w.set_cave(x, y, v)),
        sound(w.set_wall(x, y, owner, hp)),
        sound(w.set_hut(x, y, owner, hp)),
        sound(w.set_node(x, y, kind, NODE_AMOUNT)),
{
    let t = w.with_tile(x, y);
    lemma_ensured(w, chunk_coord(x, y));
    lemma_at(t, x, y);
    let c = t.at(x, y);
    lemma_with_cell(t, x, y, Cell { house: v, ..c });
    lemma_with_cell(t, x, y, Cell { house: owner == 0, enemy_house: owner != 0, ..c });
    lemma_with_cell(t, x, y, Cell { bridge: v, ..c });
    lemma_with_cell(t, x, y, Cell { cave: v, ..c });
    lemma_with_cell(t, x, y, Cell { wall: Some(Wall { owner, hp }), ..c });
    lemma_with_cell(
        t,
        x,
        y,
        Cell { node: None, hut: Some(Hut { owner, hp, occupants: 0 }), ..c },
    );
    lemma_with_cell(t, x, y, Cell { node: Some(Node { kind, amount: NODE_AMOUNT }), ..c });
}

proof fn lemma_edits(w: WorldView, x: i32, y: i32, dmg: F32, n: u8)
    requires
        sound(w),
        n <= HUT_CAPACITY,
    ensures
        sound(w.clear_node(x, y)),
        sound(w.deplete_node(x, y)),
        sound(w.damage_wall(x, y, dmg)),
        sound(w.damage_hut(x, y, dmg)),
        sound(w.with_occupants(x, y, n)),
{
    if w.loaded(x, y) {
        lemma_at(w, x, y);
        let c = w.at(x, y);
        lemma_with_cell(w, x, y, Cell { node: None, ..c });
        if let Some(node) = c.node {
            let left = if node.amount <= 1 {
                None
            } else {
                Some(Node { amount: (node.amount - 1) as u32, ..node })
            };
            lemma_with_cell(w, x, y, Cell { node: left, ..c });
        }
        if let Some(wall) = c.wall {
            let left = if wall.hp.sub_spec(dmg).le_spec(F32 { bits: 0 }) {
                None
            } else {
                Some(Wall { hp: wall.hp.sub_spec(dmg), ..wall })
            };
            lemma_with_cell(w, x, y, Cell { wall: left, ..c });
        }
        if let Some(hut) = c.hut {
            let left = if hut.hp.sub_spec(dmg).le_spec(F32 { bits: 0 }) {
                None
            } else {
                Some(Hut { hp: hut.hp.sub_spec(dmg), ..hut })
            };
            lemma_with_cell(w, x, y, Cell { hut: left, ..c });
            lemma_with_cell(w, x, y, Cell { hut: Some(Hut { occupants: n, ..hut }), ..c });
        }
    }
}

proof fn lemma_reown(w: WorldView, x: i32, y: i32, r: int, from: u8, to: u8)
    requires
        sound(w),
        to <= 1,
    ensures
        sound(w.reown_walls_near(x, y, r, from, to)),
{
    let after = w.reown_walls_near(x, y, r, from, to);
    assert forall|k: int, j: int|
        0 <= k < after.cells.len() && 0 <= j < CHUNK_TILES implies sound_cell(
        #[trigger] after.cells[k][j],
    ) by {
        assert(sound_cell(w.cells[k][j]));
        assert(after.cells[k][j] == w.reowned_cell(k, j, (x, y), r, from, to));
    }
}

proof fn lemma_camp(w: WorldView, center: Coord, k: int, left: int)
    requires
        sound(w),
    ensures
        sound(w.camp_from(center, k, left)),
    decreases 9 - k,
{
    if k < 9 && left > 0 {
        match camp_spot(center, k) {
            Some(t) => if w.tile(t.0, t.1) == Tile::Grass {
                lemma_at(w, t.0, t.1);
                lemma_with_cell(
                    w,
                    t.0,
                    t.1,
                    Cell { node: None, enemy_house: true, ..w.at(t.0, t.1) },
                );
                lemma_camp(w.with_camp_house(t), center, k + 1, left - 1);
            } else {
                lemma_camp(w, center, k + 1, left);
            },
            None => {
                lemma_camp(w, center, k + 1, left);
            },
        }
    }
}

proof fn lemma_handed_over(w: WorldView, village: Seq<Coord>, from: u8, to: u8, n: int)
    requires
        sound(w),
        to <= 1,
    ensures
        sound(handed_over(w, village, from, to, n)),
    decreases n,
{
    if n > 0 {
        lemma_handed_over(w, village, from, to, n - 1);
        let t = village[n - 1];
        let before = handed_over(w, village, from, to, n - 1);
        lemma_setters(before, t.0, t.1, to, F32 { bits: 0 }, Resource::Wood, true);
        lemma_reown(
            before.convert_house(t.0, t.1, to),
            t.0,
            t.1,
            crate::capture::WALL_CAPTURE_RADIUS as int,
            from,
            to,
        );
    }
}

proof fn lemma_won(g: GameView, villages: Seq<Seq<Coord>>, n: int)
    requires
        sound(g.world),
    ensures
        sound(g.won(villages, n).world),
    decreases n,
{
    if n > 0 {
        lemma_won(g, villages, n - 1);
        let v = villages[n - 1];
        lemma_handed_over(g.won(villages, n - 1).world, v, 1, 0, v.len() as int);
    }
}

proof fn lemma_fallen(g: GameView, villages: Seq<Seq<Coord>>, n: int)
    requires
        sound(g.world),
    ensures
        sound(g.fallen(villages, n).world),
    decreases n,
{
    if n > 0 {
        lemma_fallen(g, villages, n - 1);
        let v = villages[n - 1];
        lemma_handed_over(g.fallen(villages, n - 1).world, v, 0, 1, v.len() as int);
    }
}

proof fn lemma_captured(g: GameView)
    requires
        sound(g.world),
    ensures
        sound(g.captured().world),
{
    reveal(GameView::captured);
    let theirs = cluster_spec(g.world.enemy_house_tiles);
    let ours = cluster_spec(g.player_house_tiles);
    lemma_won(g, theirs, theirs.len() as int);
    lemma_fallen(g.won(theirs, theirs.len() as int), ours, ours.len() as int);
}

proof fn lemma_grown(g: GameView, i: int, step: F32)
    requires
        sound(g.world),
    ensures
        sound(g.grown_from(i, step).world),
    decreases g.saplings.len() - i,
{
    if 0 <= i < g.saplings.len() {
        let s = g.saplings[i];
        let grow = s.grow.add_spec(step);
        if !g.world.is_open_grass(s.tile.0, s.tile.1) {
            lemma_grown(
                GameView { saplings: swap_removed(g.saplings, i), ..g },
                i,
                step,
            );
        } else if (F32 { bits: crate::vec2::ONE }).le_spec(grow) {
            lemma_setters(
                g.world,
                s.tile.0,
                s.tile.1,
                0,
                F32 { bits: 0 },
                Resource::Wood,
                true,
            );
            lemma_grown(
                GameView {
                    world: g.world.set_node(
                        s.tile.0,
                        s.tile.1,
                        Resource::Wood,
                        crate::game::SAPLING_YIELD,
                    ),
                    saplings: swap_removed(g.saplings, i),
                    ..g
                },
                i,
                step,
            );
        } else {
            lemma_grown(
                GameView {
                    saplings: g.saplings.update(i, Sapling { tile: s.tile, grow }),
                    ..g
                },
                i + 1,
                step,
            );
        }
    }
}

proof fn lemma_prepared(g: GameView, dt: F32, sim: (i32, i32, i32, i32))
    requires
        sound(g.world),
    ensures
        sound(g.prepared(dt, sim).world),
{
    reveal(GameView::enemy_raised);
    reveal(GameView::player_raised);
    if let Some(b) = g.bounds(sim, g.entities.len() as int) {
        lemma_region(
            g.world,
            crate::grid::shift_spec(b.0, -(crate::game::ENSURE_MARGIN as int)),
            crate::grid::shift_spec(b.1, -(crate::game::ENSURE_MARGIN as int)),
            crate::grid::shift_spec(b.2, crate::game::ENSURE_MARGIN as int),
            crate::grid::shift_spec(b.3, crate::game::ENSURE_MARGIN as int),
        );
    }
    lemma_grown(
        g.surveyed(sim).enemy_raised(dt).player_raised(dt),
        0,
        dt.div_spec(F32 { bits: crate::game::SAPLING_GROW_TIME }),
    );
}

proof fn lemma_walls_hit(w: WorldView, walls: Seq<(Coord, F32)>, n: int)
    requires
        sound(w),
    ensures
        sound(walls_hit(w, walls, n)),
    decreases n,
{
    if n > 0 {
        lemma_walls_hit(w, walls, n - 1);
        let (t, dmg) = walls[n - 1];
        lemma_edits(walls_hit(w, walls, n - 1), t.0, t.1, dmg, 0);
    }
}

proof fn lemma_huts_hit(g: GameView, huts: Seq<(Coord, F32)>, n: int)
    requires
        sound(g.world),
    ensures
        sound(g.huts_hit(huts, n).world),
    decreases n,
{
    if n > 0 {
        lemma_huts_hit(g, huts, n - 1);
        reveal(GameView::hut_hit);
        let (t, dmg) = huts[n - 1];
        lemma_edits(g.huts_hit(huts, n - 1).world, t.0, t.1, dmg, 0);
    }
}

proof fn lemma_fought(g: GameView, dt: F32, sim: (i32, i32, i32, i32))
    requires
        sound(g.world),
    ensures
        sound(g.fought(dt, sim).world),
{
    let c = clash_spec(g.world, g.entities, sim, dt, g.entities.len() as int);
    lemma_walls_hit(g.world, c.walls, c.walls.len() as int);
    lemma_huts_hit(
        GameView {
            entities: wounded(c.entities, c.damage),
            world: walls_hit(g.world, c.walls, c.walls.len() as int),
            ..g
        },
        c.huts,
        c.huts.len() as int,
    );
}

/// Whatever a unit's step brings about, the land stays sound.
proof fn lemma_happened(g: GameView, i: int, event: Option<StepEvent>)
    requires
        sound(g.world),
    ensures
        sound(g.happened(i, event).world),
{
    reveal(GameView::happened);
    let owner = owner_of_spec(g.entities[i].faction);
    let zero = F32 { bits: 0 };
    match event {
        Some(StepEvent::Harvest(t)) => {
            lemma_edits(g.world, t.0, t.1, zero, 0);
        },
        Some(StepEvent::RaiseWall(t)) => {
            lemma_setters(
                g.world,
                t.0,
                t.1,
                owner,
                F32 { bits: crate::game::WALL_MAX_HP },
                Resource::Wood,
                true,
            );
        },
        Some(StepEvent::Demolish(t)) => {
            lemma_edits(g.world, t.0, t.1, zero, 0);
        },
        Some(StepEvent::BuildHut(t)) => {
            lemma_setters(
                g.world,
                t.0,
                t.1,
                owner,
                F32 { bits: crate::turn::HUT_MAX_HP },
                Resource::Wood,
                true,
            );
        },
        Some(StepEvent::Hide(t)) => {
            if let Some(h) = g.world.hut(t.0, t.1) {
                if h.occupants < HUT_CAPACITY {
                    lemma_edits(g.world, t.0, t.1, zero, (h.occupants + 1) as u8);
                }
            }
        },
        _ => {},
    }
}

proof fn lemma_thought(g: GameView, uses: Map<u64, u32>, turn: crate::turn::TurnView, n: int)
    requires
        sound(g.world),
    ensures
        sound(g.thought(uses, turn, n).0.world),
    decreases n,
{
    if n > 0 {
        lemma_thought(g, uses, turn, n - 1);
        let (before, u) = g.thought(uses, turn, n - 1);
        reveal(GameView::moved);
        let i = n - 1;
        let e = before.entities[i];
        if crate::game::in_sim_spec(turn.sim, e.tile()) && !e.slain() {
            let under = match e.faction {
                Faction::Player => turn.player_under,
                Faction::Enemy => turn.enemy_under,
            };
            let step = crate::knight::ai_spec(
                before.scene(turn, e.faction),
                e,
                before.rng,
                u,
                turn.acting[i],
                under,
                turn.dt,
            );
            lemma_happened(
                GameView {
                    entities: before.entities.update(i, step.e),
                    rng: step.rng,
                    ..before
                },
                i,
                step.event,
            );
        }
    }
}

proof fn lemma_cleared(g: GameView, i: int)
    ensures
        g.cleared_from(i).world == g.world,
        g.cleared_from(i).hut_tiles == g.hut_tiles,
    decreases g.entities.len() - i,
{
    if 0 <= i < g.entities.len() {
        let rest = swap_removed(g.entities, i);
        let e = g.entities[i];
        if e.slain() {
            match e.faction {
                Faction::Enemy => {
                    lemma_cleared(
                        GameView {
                            entities: rest,
                            enemies_defeated: g.enemies_defeated.wrapping_add(1),
                            ..g
                        },
                        i,
                    );
                },
                Faction::Player => {
                    lemma_cleared(
                        GameView {
                            entities: rest,
                            units_lost: g.units_lost.wrapping_add(1),
                            ..g
                        },
                        i,
                    );
                },
            }
        } else if e.sheltered {
            lemma_cleared(GameView { entities: rest, ..g }, i);
        } else {
            lemma_cleared(g, i + 1);
        }
    }
}

proof fn lemma_opened(g: GameView, huts: Seq<Coord>, n: int)
    requires
        sound(g.world),
    ensures
        sound(g.all_opened(huts, n).world),
    decreases n,
{
    if n > 0 {
        lemma_opened(g, huts, n - 1);
        reveal(GameView::opened);
        let t = huts[n - 1];
        lemma_edits(g.all_opened(huts, n - 1).world, t.0, t.1, F32 { bits: 0 }, 0);
    }
}

/// As the game goes on, its land stays sound: in particular no hut ever holds more
/// farmers than fit.
pub proof fn law_land_stays_sound(g: GameView, dt: F32, sim: (i32, i32, i32, i32))
    requires
        sound(g.world),
    ensures
        sound(g.updated(dt, sim).world),
{
    let dt = dt.min_spec(F32 { bits: crate::turn::MAX_STEP });
    let ready = g.prepared(dt, sim);
    let n = ready.entities.len() as int;
    lemma_prepared(g, dt, sim);
    lemma_fought(ready, dt, sim);
    let uses = crate::turn::rosters(ready.entities, n);
    lemma_thought(ready.fought(dt, sim), uses, ready.turn(dt, sim), n);
    let acted = ready.fought(dt, sim).thought(uses, ready.turn(dt, sim), n).0;
    lemma_cleared(acted, 0);
    let alive = acted.cleared_from(0);
    lemma_opened(alive, alive.hut_tiles, alive.hut_tiles.len() as int);
    lemma_captured(alive.all_opened(alive.hut_tiles, alive.hut_tiles.len() as int).rallied());
}

/// Building keeps the land sound.
pub proof fn law_building_stays_sound(g: GameView, x: i32, y: i32)
    requires
        sound(g.world),
    ensures
        sound(g.built(x, y).world),
{
    lemma_setters(
        g.world,
        x,
        y,
        0,
        F32 { bits: crate::game::WALL_MAX_HP },
        Resource::Wood,
        true,
    );
}

proof fn lemma_settled(w: WorldView, anchor: Coord, k: int)
    requires
        sound(w),
    ensures
        sound(settled(w, anchor, k).0),
    decreases k,
{
    if k > 0 {
        lemma_settled(w, anchor, k - 1);
        let before = settled(w, anchor, k - 1).0;
        match crate::grid::offset_spec(
            anchor,
            crate::founding::plot_spec(k - 1).0,
            crate::founding::plot_spec(k - 1).1,
        ) {
            Some(t) => {
                lemma_setters(before, t.0, t.1, 0, F32 { bits: 0 }, Resource::Wood, true);
            },
            None => {},
        }
    }
}

proof fn lemma_peopled(c: Camps, anchor: Coord)
    requires
        sound(c.world),
    ensures
        sound(c.peopled(anchor).world),
{
    let (x0, y0) = (crate::grid::shift_spec(anchor.0, -6), crate::grid::shift_spec(anchor.1, -6));
    let (x1, y1) = (crate::grid::shift_spec(anchor.0, 6), crate::grid::shift_spec(anchor.1, 6));
    lemma_region(c.world, x0, y0, x1, y1);
    lemma_camp(
        c.world.ensured_region(x0, y0, x1, y1),
        anchor,
        0,
        crate::founding::CAMP_HOUSES as int,
    );
}

proof fn lemma_camps(c: Camps, k: int)
    requires
        sound(c.world),
    ensures
        sound(c.with_camps(k).world),
    decreases k,
{
    if k > 0 {
        lemma_camps(c, k - 1);
        let before = c.with_camps(k - 1);
        let target = crate::founding::camp_target(before.rng, k - 1);
        let r = crate::founding::CAMP_SEARCH as int;
        lemma_region(
            before.world,
            crate::grid::shift_spec(target.0, -r),
            crate::grid::shift_spec(target.1, -r),
            crate::grid::shift_spec(target.0, r),
            crate::grid::shift_spec(target.1, r),
        );
        let land = Camps {
            world: land_region(before.world, target, r),
            rng: crate::founding::camp_rng(before.rng),
            ..before
        };
        if let Some(anchor) = crate::founding::camp_site_spec(land.world, target) {
            lemma_peopled(land, anchor);
        }
    }
}

proof fn lemma_patched(w: WorldView, center: Coord, k: int)
    requires
        sound(w),
    ensures
        sound(crate::founding::patched(w, center, k)),
    decreases k,
{
    if k > 0 {
        lemma_patched(w, center, k - 1);
        let before = crate::founding::patched(w, center, k - 1);
        let side = crate::founding::PATCH as int;
        match crate::grid::offset_spec(center, (k - 1) % side - 4, (k - 1) / side - 4) {
            Some(t) => {
                let land = before.with_tile(t.0, t.1);
                lemma_ensured(before, chunk_coord(t.0, t.1));
                lemma_at(land, t.0, t.1);
                lemma_with_cell(
                    land,
                    t.0,
                    t.1,
                    Cell { tile: Tile::Grass, bridge: false, ..land.at(t.0, t.1) },
                );
            },
            None => {},
        }
    }
}

proof fn lemma_filled(c: Camps, k: int)
    requires
        sound(c.world),
    ensures
        sound(c.filled(k).world),
    decreases k,
{
    if k > 0 {
        lemma_filled(c, k - 1);
        let before = c.filled(k - 1);
        let t = crate::founding::new_ground(before.world.enemy_house_tiles);
        let side = crate::founding::PATCH as int;
        lemma_patched(before.world, t, side * side);
        lemma_peopled(
            Camps { world: crate::founding::patched(before.world, t, side * side), ..before },
            t,
        );
    }
}

/// A game starts on sound land.
pub proof fn law_land_starts_sound(seed: i32)
    ensures
        sound(GameView::founded(seed).world),
{
    let blank = WorldView {
        seed,
        coords: Seq::empty(),
        cells: Seq::empty(),
        enemy_house_tiles: Seq::empty(),
    };
    lemma_region(
        blank,
        (-crate::game::ENSURE_MARGIN) as i32,
        (-crate::game::ENSURE_MARGIN) as i32,
        crate::game::ENSURE_MARGIN,
        crate::game::ENSURE_MARGIN,
    );
    let land = first_land(seed);
    let anchor = first_anchor(land);
    lemma_settled(land, anchor, 5);
    let world = settled(land, anchor, 5).0;
    let start = Camps {
        world,
        entities: crate::founding::villagers(
            crate::survey::whole_square(
                anchor,
                8,
                crate::pathfind::walks(world, crate::chunk::NO_OWNER),
            ),
            6,
        ),
        villages: 0,
        rng: ((seed as u64) ^ crate::founding::CAMP_SALT) | 1,
    };
    let tries = crate::founding::CAMP_TRIES as int;
    lemma_camps(start, tries);
    lemma_filled(start.with_camps(tries), crate::founding::ENEMY_VILLAGES as int);
}

/// A save keeps sound land exactly, and so a game taken up again goes on from sound
/// land.
pub proof fn law_sound_land_survives_a_save(g: GameView)
    requires
        sound(g.world),
    ensures
        reloaded(g).world.coords == g.world.coords,
        reloaded(g).world.cells == g.world.cells,
        sound(reloaded(g).world),
{
    assert forall|k: int, j: int|
        0 <= k < g.world.cells.len() && 0 <= j < g.world.cells[k].len() implies plain(
        #[trigger] g.world.cells[k][j],
    ) by {
        assert(sound_cell(g.world.cells[k][j]));
    }
    law_save_keeps_land(g);
}

} // verus!
