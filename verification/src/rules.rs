//! Rules of the game that hold whatever the player does: what building costs, who
//! is born and who is counted dead, and what changes hands.

use vstd::prelude::*;
use crate::behavior::{
    berth_spec, beside_node, beside_plot, claim_spec, leash_path_spec, leashed,
    plan_gather_kind_spec, plan_plant_spec, released, seek_shelter_spec, stroll, SceneView,
    StepEvent, FARMER_HOME_RADIUS, PATH_BUDGET, WANDER_BUDGET, WANDER_TRIES,
};
use crate::capture::undefended;
use crate::chunk::{Cell, Resource};
use crate::farmer::{gather_spec, way_in_spec};
use crate::float::{lemma_half_past_is_number, F32};
use crate::game::{
    farmers_of, headcount, in_sim_spec, position_spec, swap_removed, BuildMode, GameView,
    ENEMY_CAP,
};
use crate::grid::{near_any_spec, offset_spec};
use crate::pathfind::{before_step, is_tile, law_bfs_route};
use crate::rng::{range_next, range_value};
use crate::survey::first_neighbor;
use crate::turn::TurnView;
use crate::unit::{EntityView, Faction, MIN_FARMERS_TO_GROW};
use crate::vec2::{tile_center_spec, Coord};
use crate::world::{chunk_coord, local_index, WorldView};

verus! {

// --- building ------------------------------------------------------------------------

/// What is built is paid for, to the last plank; what cannot be built costs nothing
/// and changes nothing.
pub proof fn law_building_is_paid_for(g: GameView, x: i32, y: i32)
    ensures
        g.can_build(x, y) ==> g.built(x, y).wood + g.wood_cost() == g.wood && g.built(x, y).stone
            + g.stone_cost() == g.stone,
        !g.can_build(x, y) ==> g.built(x, y) == g,
{
}

/// Houses, mines and walls only go up close to a house of the player's.
pub proof fn law_territory_grows_outward(g: GameView, x: i32, y: i32)
    requires
        g.build_mode == BuildMode::House || g.build_mode == BuildMode::Mine || g.build_mode
            == BuildMode::Wall,
        !g.near_player_house(x, y),
    ensures
        g.built(x, y) == g,
{
}

/// Every bridge the player placed stands near a house, or near one placed before it.
pub open spec fn spans_hold(g: GameView) -> bool {
    forall|i: int|
        0 <= i < g.player_bridges.len() ==> {
            let b = #[trigger] g.player_bridges[i];
            g.near_player_house(b.0, b.1) || near_any_spec(
                g.player_bridges.take(i),
                b,
                crate::game::BRIDGE_REACH as int,
            )
        }
}

/// Building never leaves a bridge hanging: a network always traces back to a house.
pub proof fn law_bridges_trace_back(g: GameView, x: i32, y: i32)
    requires
        spans_hold(g),
    ensures
        spans_hold(g.built(x, y)),
{
    let after = g.built(x, y);
    assert forall|i: int| 0 <= i < after.player_bridges.len() implies ({
        let b = #[trigger] after.player_bridges[i];
        after.near_player_house(b.0, b.1) || near_any_spec(
            after.player_bridges.take(i),
            b,
            crate::game::BRIDGE_REACH as int,
        )
    }) by {
        let b = after.player_bridges[i];
        if i < g.player_bridges.len() {
            assert(b == g.player_bridges[i]);
            assert(after.player_bridges.take(i) =~= g.player_bridges.take(i));
            if g.near_player_house(b.0, b.1) {
                lemma_still_near(g.player_house_tiles, after.player_house_tiles, b);
            }
        } else {
            assert(b == (x, y));
            assert(after.player_bridges.take(i) =~= g.player_bridges);
            if g.near_player_house(x, y) {
                lemma_still_near(g.player_house_tiles, after.player_house_tiles, b);
            }
        }
    }
}

proof fn lemma_still_near(before: Seq<Coord>, after: Seq<Coord>, t: Coord)
    requires
        near_any_spec(before, t, crate::game::BUILD_NEAR_RADIUS as int),
        before.len() <= after.len(),
        forall|i: int| 0 <= i < before.len() ==> after[i] == #[trigger] before[i],
    ensures
        near_any_spec(after, t, crate::game::BUILD_NEAR_RADIUS as int),
{
    let k = choose|k: int|
        0 <= k < before.len() && crate::grid::within_spec(
            #[trigger] before[k],
            t,
            crate::game::BUILD_NEAR_RADIUS as int,
        );
    assert(after[k] == before[k]);
}

proof fn lemma_position_found(tiles: Seq<Coord>, t: Coord, i: int)
    requires
        0 <= i,
    ensures
        match position_spec(tiles, t, i) {
            Some(k) => i <= k < tiles.len() && tiles[k] == t && forall|j: int|
                i <= j < k ==> #[trigger] tiles[j] != t,
            None => forall|j: int| i <= j < tiles.len() ==> #[trigger] tiles[j] != t,
        },
    decreases tiles.len() - i,
{
    if i < tiles.len() && tiles[i] != t {
        lemma_position_found(tiles, t, i + 1);
    }
}

/// Clicking a tree orders a hut; clicking it again cancels the order.
pub proof fn law_hut_order_toggles(g: GameView, x: i32, y: i32)
    requires
        g.build_mode == BuildMode::Hut,
        !g.hut_orders.contains((x, y)),
    ensures
        g.built(x, y).built(x, y) == g,
{
    let t = (x, y);
    lemma_position_found(g.hut_orders, t, 0);
    if g.can_build(x, y) {
        let once = g.built(x, y);
        assert(once.hut_orders == g.hut_orders.push(t));
        lemma_position_found(once.hut_orders, t, 0);
        let n = g.hut_orders.len() as int;
        assert(once.hut_orders[n] == t);
        let k = position_spec(once.hut_orders, t, 0)->0;
        if k < n {
            assert(g.hut_orders[k] == t);
        }
        assert(once.hut_orders.remove(n) =~= g.hut_orders);
        assert(g.built(x, y).built(x, y) =~= g);
    }
}

/// Clicking a tile in rally mode plants the flag there, and clicking it again lifts
/// it.
pub proof fn law_rally_flag_toggles(g: GameView, x: i32, y: i32)
    requires
        g.build_mode == BuildMode::Rally,
        g.rally_point is None,
    ensures
        g.built(x, y) == (GameView { rally_point: Some(tile_center_spec((x, y))), ..g }),
        g.built(x, y).built(x, y) == g,
{
    lemma_half_past_is_number(x as int);
    lemma_half_past_is_number(y as int);
    reveal(F32::eq_spec);
    assert(g.built(x, y) =~= (GameView { rally_point: Some(tile_center_spec((x, y))), ..g }));
    assert(g.built(x, y).built(x, y) =~= g);
}

// --- births ---------------------------------------------------------------------------

proof fn lemma_headcount_push(es: Seq<EntityView>, e: EntityView, f: Faction)
    ensures
        headcount(es.push(e), f) == headcount(es, f) + if e.faction == f {
            1nat
        } else {
            0nat
        },
{
    assert(es.push(e).drop_last() =~= es);
}

/// Births never take the player past the population cap, and only happen while more
/// than three farmers support them; nor the enemy past theirs.
pub proof fn law_births_are_bounded(g: GameView, dt: F32)
    ensures
        g.player_raised(dt).entities != g.entities ==> {
            &&& headcount(g.player_raised(dt).entities, Faction::Player) <= g.pop_cap()
            &&& farmers_of(g.entities, Faction::Player) > MIN_FARMERS_TO_GROW
            &&& g.player_raised(dt).entities.len() == g.entities.len() + 1
        },
        g.enemy_raised(dt).entities != g.entities ==> {
            &&& headcount(g.enemy_raised(dt).entities, Faction::Enemy) <= ENEMY_CAP
            &&& farmers_of(g.entities, Faction::Enemy) > MIN_FARMERS_TO_GROW
            &&& g.enemy_raised(dt).entities.len() == g.entities.len() + 1
        },
{
    reveal(GameView::player_raised);
    reveal(GameView::enemy_raised);
    if g.player_raised(dt).entities != g.entities {
        lemma_headcount_push(g.entities, g.player_raised(dt).entities.last(), Faction::Player);
    }
    if g.enemy_raised(dt).entities != g.entities {
        lemma_headcount_push(g.entities, g.enemy_raised(dt).entities.last(), Faction::Enemy);
    }
}

// --- the dead -------------------------------------------------------------------------

/// How many units of the faction, from the `i`-th on, have died.
pub open spec fn dead_from(es: Seq<EntityView>, i: int, f: Faction) -> nat
    decreases es.len() - i,
{
    if i < 0 || i >= es.len() {
        0
    } else {
        dead_from(es, i + 1, f) + if es[i].slain() && es[i].faction == f {
            1nat
        } else {
            0nat
        }
    }
}

proof fn lemma_dead_after_swap(es: Seq<EntityView>, i: int, j: int, f: Faction)
    requires
        0 <= i < j < es.len(),
    ensures
        dead_from(swap_removed(es, i), j, f) + (if es.last().slain() && es.last().faction == f {
            1nat
        } else {
            0nat
        }) == dead_from(es, j, f),
    decreases es.len() - j,
{
    let t = swap_removed(es, i);
    if j < es.len() - 1 {
        lemma_dead_after_swap(es, i, j + 1, f);
        assert(t[j] == es[j]);
    } else {
        assert(dead_from(es, j + 1, f) == 0);
    }
}

proof fn lemma_dead_swap(es: Seq<EntityView>, i: int, f: Faction)
    requires
        0 <= i < es.len(),
    ensures
        dead_from(swap_removed(es, i), i, f) + (if es[i].slain() && es[i].faction == f {
            1nat
        } else {
            0nat
        }) == dead_from(es, i, f),
{
    let t = swap_removed(es, i);
    if i < es.len() - 1 {
        lemma_dead_after_swap(es, i, i + 1, f);
        assert(t[i] == es.last());
        assert(dead_from(t, i, f) == dead_from(t, i + 1, f) + if t[i].slain() && t[i].faction == f {
            1nat
        } else {
            0nat
        });
    } else {
        assert(dead_from(es, i + 1, f) == 0);
        assert(dead_from(t, i, f) == 0);
    }
}

pub open spec fn alive_and_out(e: EntityView) -> bool {
    !e.slain() && !e.sheltered
}

proof fn lemma_cleared(g: GameView, i: int)
    requires
        0 <= i <= g.entities.len(),
        forall|k: int| 0 <= k < i ==> alive_and_out(#[trigger] g.entities[k]),
        g.enemies_defeated + dead_from(g.entities, i, Faction::Enemy) <= u32::MAX,
        g.units_lost + dead_from(g.entities, i, Faction::Player) <= u32::MAX,
    ensures
        ({
            let after = g.cleared_from(i);
            &&& forall|k: int|
                0 <= k < after.entities.len() ==> alive_and_out(#[trigger] after.entities[k])
            &&& after.enemies_defeated == g.enemies_defeated + dead_from(
                g.entities,
                i,
                Faction::Enemy,
            )
            &&& after.units_lost == g.units_lost + dead_from(g.entities, i, Faction::Player)
        }),
    decreases g.entities.len() - i,
{
    if i < g.entities.len() {
        let e = g.entities[i];
        if e.slain() || e.sheltered {
            lemma_dead_swap(g.entities, i, Faction::Enemy);
            lemma_dead_swap(g.entities, i, Faction::Player);
            let rest = swap_removed(g.entities, i);
            assert forall|k: int| 0 <= k < i implies alive_and_out(#[trigger] rest[k]) by {
                assert(rest[k] == g.entities[k]);
            }
            let next = if e.slain() {
                match e.faction {
                    Faction::Enemy => GameView {
                        entities: rest,
                        enemies_defeated: g.enemies_defeated.wrapping_add(1),
                        ..g
                    },
                    Faction::Player => GameView {
                        entities: rest,
                        units_lost: g.units_lost.wrapping_add(1),
                        ..g
                    },
                }
            } else {
                GameView { entities: rest, ..g }
            };
            lemma_cleared(next, i);
        } else {
            lemma_cleared(g, i + 1);
        }
    }
}

/// Each death is counted once, for the side it belongs to, and afterwards nobody
/// dead or hidden is left on the field. (The tallies must still have room.)
pub proof fn law_deaths_are_tallied(g: GameView)
    requires
        g.enemies_defeated + dead_from(g.entities, 0, Faction::Enemy) <= u32::MAX,
        g.units_lost + dead_from(g.entities, 0, Faction::Player) <= u32::MAX,
    ensures
        g.cleared_from(0).enemies_defeated == g.enemies_defeated + dead_from(
            g.entities,
            0,
            Faction::Enemy,
        ),
        g.cleared_from(0).units_lost == g.units_lost + dead_from(g.entities, 0, Faction::Player),
        forall|k: int|
            0 <= k < g.cleared_from(0).entities.len() ==> alive_and_out(
                #[trigger] g.cleared_from(0).entities[k],
            ),
{
    lemma_cleared(g, 0);
}

// --- tiles ----------------------------------------------------------------------------

/// Two tiles that are stored in one place are one tile.
pub proof fn lemma_tiles_apart(x: i32, y: i32, u: i32, v: i32)
    requires
        chunk_coord(x, y) == chunk_coord(u, v),
        local_index(x, y) == local_index(u, v),
    ensures
        x == u,
        y == v,
{
    crate::world::lemma_place(x, y);
    crate::world::lemma_place(u, v);
}

/// An edit of a tile leaves every other tile as it is.
pub proof fn law_edits_are_local(w: WorldView, x: i32, y: i32, c: Cell, u: i32, v: i32)
    requires
        w.wf(),
        w.loaded(x, y),
    ensures
        w.with_cell(x, y, c).wf(),
        w.with_cell(x, y, c).cell(u, v) == if (u, v) == (x, y) {
            Some(c)
        } else {
            w.cell(u, v)
        },
{
    crate::world::lemma_place(x, y);
    crate::world::lemma_place(u, v);
    let after = w.with_cell(x, y, c);
    let i = w.coords.index_of(chunk_coord(x, y));
    assert(w.coords[i] == chunk_coord(x, y));
    if w.loaded(u, v) {
        let k = w.coords.index_of(chunk_coord(u, v));
        assert(w.coords[k] == chunk_coord(u, v));
        if k == i && local_index(u, v) == local_index(x, y) {
            lemma_tiles_apart(x, y, u, v);
        }
    }
}

/// One unit harvested is one unit gained: the node has one less, or is gone.
pub proof fn law_harvest_moves_one_unit(g: GameView, i: int, t: Coord)
    requires
        g.world.wf(),
        g.wood < u32::MAX,
        g.stone < u32::MAX,
        g.world.node(t.0, t.1) is Some,
        g.world.node(t.0, t.1)->0.amount >= 1,
    ensures
        ({
            let after = g.happened(i, Some(StepEvent::Harvest(t)));
            let n = g.world.node(t.0, t.1)->0;
            &&& after.wood + after.stone == g.wood + g.stone + 1
            &&& n.kind == Resource::Wood ==> after.wood == g.wood + 1
            &&& n.kind == Resource::Stone ==> after.stone == g.stone + 1
            &&& match after.world.node(t.0, t.1) {
                Some(m) => m.kind == n.kind && m.amount + 1 == n.amount,
                None => n.amount == 1,
            }
        }),
{
    reveal(GameView::happened);
    let n = g.world.node(t.0, t.1)->0;
    let left = if n.amount <= 1 {
        None
    } else {
        Some(crate::chunk::Node { amount: (n.amount - 1) as u32, ..n })
    };
    law_edits_are_local(
        g.world,
        t.0,
        t.1,
        Cell { node: left, ..g.world.at(t.0, t.1) },
        t.0,
        t.1,
    );
}

// --- the leash ------------------------------------------------------------------------

/// On the way to a node, every step stays within the leash.
pub proof fn law_gathering_stays_on_leash(
    w: WorldView,
    owner: u8,
    start: Coord,
    kind: Option<Resource>,
    home: Seq<Coord>,
)
    ensures
        plan_gather_kind_spec(w, owner, start, kind, home) matches Some(plan) ==> forall|k: int|
            0 <= k < plan.0.len() ==> near_any_spec(
                home,
                #[trigger] plan.0[k],
                FARMER_HOME_RADIUS as int,
            ),
{
    let pass = leashed(w, owner, home, FARMER_HOME_RADIUS as int);
    let goal = beside_node(w, owner, home, kind);
    law_bfs_route(start, PATH_BUDGET as int, goal, pass);
    if let Some(plan) = plan_gather_kind_spec(w, owner, start, kind, home) {
        assert forall|k: int| 0 <= k < plan.0.len() implies near_any_spec(
            home,
            #[trigger] plan.0[k],
            FARMER_HOME_RADIUS as int,
        ) by {
            if k < plan.0.len() - 1 {
                assert(pass(plan.0[k]));
            } else {
                assert(goal(before_step(start, plan.0, plan.0.len() as int)));
            }
        }
    }
}

/// On the way to a plot, every step stays within the leash.
pub proof fn law_sowing_stays_on_leash(
    w: WorldView,
    owner: u8,
    start: Coord,
    home: Seq<Coord>,
    saplings: Seq<Coord>,
)
    ensures
        plan_plant_spec(w, owner, start, home, saplings) matches Some(plan) ==> forall|k: int|
            0 <= k < plan.0.len() ==> near_any_spec(
                home,
                #[trigger] plan.0[k],
                FARMER_HOME_RADIUS as int,
            ),
{
    let pass = leashed(w, owner, home, FARMER_HOME_RADIUS as int);
    let goal = beside_plot(w, owner, home, saplings);
    law_bfs_route(start, PATH_BUDGET as int, goal, pass);
    if let Some(plan) = plan_plant_spec(w, owner, start, home, saplings) {
        assert forall|k: int| 0 <= k < plan.0.len() implies near_any_spec(
            home,
            #[trigger] plan.0[k],
            FARMER_HOME_RADIUS as int,
        ) by {
            if k < plan.0.len() - 1 {
                assert(pass(plan.0[k]));
            } else {
                assert(goal(before_step(start, plan.0, plan.0.len() as int)));
            }
        }
    }
}

proof fn lemma_leash_path(
    w: WorldView,
    owner: u8,
    home: Seq<Coord>,
    start: Coord,
    goal: Coord,
    budget: int,
)
    requires
        near_any_spec(home, goal, FARMER_HOME_RADIUS as int),
    ensures
        leash_path_spec(w, owner, home, FARMER_HOME_RADIUS as int, start, goal, budget) matches Some(
            p,
        ) ==> all_leashed(p, home),
{
    let r = FARMER_HOME_RADIUS as int;
    let pass = leashed(w, owner, home, r);
    law_bfs_route(start, budget, is_tile(goal), pass);
    if let Some(p) = leash_path_spec(w, owner, home, r, start, goal, budget) {
        assert forall|k: int| 0 <= k < p.len() implies near_any_spec(home, #[trigger] p[k], r) by {
            if k < p.len() - 1 {
                assert(pass(p[k]));
            } else {
                assert(is_tile(goal)(before_step(start, p, p.len() as int)));
            }
        }
    }
}

/// Every tile is within the leash.
pub open spec fn all_leashed(path: Seq<Coord>, home: Seq<Coord>) -> bool {
    forall|k: int|
        0 <= k < path.len() ==> near_any_spec(home, #[trigger] path[k], FARMER_HOME_RADIUS as int)
}

proof fn lemma_stroll_leashed(
    w: WorldView,
    owner: u8,
    home: Seq<Coord>,
    at: Coord,
    rng: u64,
    n: int,
)
    ensures
        stroll(w, owner, Some((home, FARMER_HOME_RADIUS as int)), at, rng, n).1 matches Some(p)
            ==> all_leashed(p, home),
    decreases n,
{
    if n > 0 {
        let dx = range_value(rng, -6, 7);
        let mid = range_next(rng, -6, 7);
        let dy = range_value(mid, -6, 7);
        if let Some(t) = offset_spec(at, dx, dy) {
            if near_any_spec(home, t, FARMER_HOME_RADIUS as int) {
                lemma_leash_path(w, owner, home, at, t, WANDER_BUDGET as int);
            }
        }
        lemma_stroll_leashed(w, owner, home, at, range_next(mid, -6, 7), n - 1);
    }
}

proof fn lemma_way_in_leashed(w: WorldView, owner: u8, home: Seq<Coord>, here: Coord, c: Coord)
    ensures
        way_in_spec(w, owner, home, here, c) matches Some(p) ==> all_leashed(p, home),
{
    if let Some(stand) = berth_spec(w, owner, home, c) {
        lemma_first_neighbor(c, 0, 4, leashed(w, owner, home, FARMER_HOME_RADIUS as int));
        lemma_leash_path(w, owner, home, here, stand, PATH_BUDGET as int);
    }
}

proof fn lemma_first_neighbor(t: Coord, i: int, n: int, will_do: spec_fn(Coord) -> bool)
    ensures
        first_neighbor(t, i, n, will_do) matches Some(c) ==> will_do(c),
    decreases n - i,
{
    if i < n {
        lemma_first_neighbor(t, i + 1, n, will_do);
    }
}

/// A farmer at home who does not have to run for a hut is never sent off the leash:
/// whatever way is found, to a node, a mine, a plot or nowhere in particular, every
/// step of it stays within.
pub proof fn law_farmers_stay_on_leash(
    s: SceneView,
    e: EntityView,
    rng: u64,
    uses: Map<u64, u32>,
    owner: u8,
    dt: F32,
)
    requires
        seek_shelter_spec(s, e, owner, Faction::Player, dt) is None,
        near_any_spec(s.home, e.tile(), FARMER_HOME_RADIUS as int),
    ensures
        gather_spec(s, e, rng, uses, owner, dt).e.path == e.path || all_leashed(
            gather_spec(s, e, rng, uses, owner, dt).e.path,
            s.home,
        ),
{
    let here = e.tile();
    law_gathering_stays_on_leash(s.world, owner, here, s.pref, s.home);
    law_gathering_stays_on_leash(s.world, owner, here, None, s.home);
    law_sowing_stays_on_leash(s.world, owner, here, s.home, s.saplings);
    lemma_stroll_leashed(s.world, owner, s.home, here, rng, WANDER_TRIES as int);
    let freed = released(uses, e.mine_target);
    if let Some(c) = e.mine_target {
        lemma_way_in_leashed(s.world, owner, s.home, here, c);
    }
    if let Some(c) = claim_spec(s, owner, here, uses) {
        lemma_way_in_leashed(s.world, owner, s.home, here, c);
    }
    if let Some(c) = claim_spec(s, owner, here, freed) {
        lemma_way_in_leashed(s.world, owner, s.home, here, c);
    }
}

// --- captures -------------------------------------------------------------------------

/// With a defender in it, or nobody of the other side, a village stays put.
pub proof fn law_presence_defends(es: Seq<EntityView>, village: Seq<Coord>, owner: Faction, i: int)
    requires
        0 <= i < es.len(),
        es[i].faction == owner,
        crate::capture::inside_spec(es[i], village),
    ensures
        !undefended(es, village, owner),
{
}

// --- out of sight ---------------------------------------------------------------------

/// A unit that is not simulated stays as it is while the others have their turn.
pub proof fn law_unwatched_stand_still(
    g: GameView,
    uses: Map<u64, u32>,
    turn: TurnView,
    n: int,
    i: int,
)
    requires
        0 <= n <= g.entities.len(),
        0 <= i < g.entities.len(),
        !in_sim_spec(turn.sim, g.entities[i].tile()),
    ensures
        g.thought(uses, turn, n).0.entities.len() == g.entities.len(),
        g.thought(uses, turn, n).0.entities[i] == g.entities[i],
    decreases n,
{
    if n > 0 {
        law_unwatched_stand_still(g, uses, turn, n - 1, i);
        reveal(GameView::moved);
        reveal(GameView::happened);
    }
}

} // verus!
