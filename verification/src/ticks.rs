//! What a tick does for everyone: births before the fight, a turn for each, and who is left.

use vstd::prelude::*;
use crate::behavior::StepEvent;
use crate::casualties::lemma_captured_spares;
use crate::float::F32;
use crate::game::{swap_removed, GameView};
use crate::knight::ai_spec;
use crate::turn::{rosters, TurnView};
use crate::unit::{EntityView, Faction};
use crate::vec2::Coord;

verus! {

/// The tile lies in the rectangle, edges included.
pub open spec fn watched(sim: (i32, i32, i32, i32), t: Coord) -> bool {
    &&& sim.0 <= t.0 && t.0 <= sim.2
    &&& sim.1 <= t.1 && t.1 <= sim.3
}

/// Still on its feet.
pub open spec fn stands(e: EntityView) -> bool {
    !e.hp.le_spec(F32 { bits: 0 })
}

// --- turns -------------------------------------------------------------------------------

/// The turns of some leave the others as they are.
proof fn lemma_own_turn_only(g: GameView, uses: Map<u64, u32>, turn: TurnView, n: int, k: int)
    requires
        0 <= n < g.entities.len(),
        0 <= k < g.entities.len(),
        k != n,
    ensures
        g.moved(uses, turn, n).0.entities.len() == g.entities.len(),
        g.moved(uses, turn, n).0.entities[k] == g.entities[k],
{
    reveal(GameView::moved);
    reveal(GameView::happened);
}

proof fn lemma_before_its_turn(g: GameView, uses: Map<u64, u32>, turn: TurnView, n: int, k: int)
    requires
        0 <= n <= k < g.entities.len(),
    ensures
        g.thought(uses, turn, n).0.entities.len() == g.entities.len(),
        g.thought(uses, turn, n).0.entities[k] == g.entities[k],
    decreases n,
{
    if n > 0 {
        lemma_before_its_turn(g, uses, turn, n - 1, k);
        let (before, u) = g.thought(uses, turn, n - 1);
        lemma_own_turn_only(before, u, turn, n - 1, k);
    }
}

proof fn lemma_after_its_turn(g: GameView, uses: Map<u64, u32>, turn: TurnView, n: int, k: int)
    requires
        0 <= k < n <= g.entities.len(),
    ensures
        g.thought(uses, turn, n).0.entities.len() == g.entities.len(),
        g.thought(uses, turn, n).0.entities[k] == g.thought(uses, turn, k + 1).0.entities[k],
    decreases n,
{
    lemma_before_its_turn(g, uses, turn, n - 1, n - 1);
    let (before, u) = g.thought(uses, turn, n - 1);
    if n > k + 1 {
        lemma_after_its_turn(g, uses, turn, n - 1, k);
        lemma_own_turn_only(before, u, turn, n - 1, k);
    } else {
        reveal(GameView::moved);
        reveal(GameView::happened);
    }
}

/// Everyone in sight and on their feet has one turn in a tick, on either side, and does what
/// their trade makes of what they know by then; everyone else stays as they are. (A turn may
/// end in a hut.)
pub proof fn law_everyone_has_a_turn(
    g: GameView,
    uses: Map<u64, u32>,
    turn: TurnView,
    n: int,
    i: int,
)
    requires
        0 <= i < n <= g.entities.len(),
    ensures
        ({
            let (before, u) = g.thought(uses, turn, i);
            let e = g.entities[i];
            let after = g.thought(uses, turn, n).0.entities[i];
            let short = if e.faction == Faction::Player {
                turn.player_under
            } else {
                turn.enemy_under
            };
            let step = ai_spec(
                before.scene(turn, e.faction),
                e,
                before.rng,
                u,
                turn.acting[i],
                short,
                turn.dt,
            );
            if watched(turn.sim, e.tile()) && stands(e) {
                &&& after == (EntityView { sheltered: after.sheltered, ..step.e })
                &&& after.sheltered ==> step.e.sheltered || step.event matches Some(
                    StepEvent::Hide(t),
                )
            } else {
                after == e
            }
        }),
{
    lemma_before_its_turn(g, uses, turn, i, i);
    lemma_after_its_turn(g, uses, turn, n, i);
    reveal(GameView::moved);
    reveal(GameView::happened);
}

// --- who is left -------------------------------------------------------------------------

proof fn lemma_passed_over(g: GameView, i: int, k: int)
    requires
        0 <= k < i <= g.entities.len(),
    ensures
        k < g.cleared_from(i).entities.len(),
        g.cleared_from(i).entities[k] == g.entities[k],
    decreases g.entities.len() - i,
{
    if i < g.entities.len() {
        let rest = GameView { entities: swap_removed(g.entities, i), ..g };
        if g.entities[i].slain() {
            match g.entities[i].faction {
                Faction::Enemy => lemma_passed_over(
                    GameView { enemies_defeated: g.enemies_defeated.wrapping_add(1), ..rest },
                    i,
                    k,
                ),
                Faction::Player => lemma_passed_over(
                    GameView { units_lost: g.units_lost.wrapping_add(1), ..rest },
                    i,
                    k,
                ),
            }
        } else if g.entities[i].sheltered {
            lemma_passed_over(rest, i, k);
        } else {
            lemma_passed_over(g, i + 1, k);
        }
    }
}

proof fn lemma_survives(g: GameView, i: int, k: int)
    requires
        0 <= i <= k < g.entities.len(),
        stands(g.entities[k]),
        !g.entities[k].sheltered,
    ensures
        g.cleared_from(i).entities.contains(g.entities[k]),
    decreases g.entities.len() - i,
{
    let es = g.entities;
    let rest = GameView { entities: swap_removed(es, i), ..g };
    let moved = if k == es.len() - 1 {
        i
    } else {
        k
    };
    if es[i].slain() {
        assert(rest.entities[moved] == es[k]);
        match es[i].faction {
            Faction::Enemy => lemma_survives(
                GameView { enemies_defeated: g.enemies_defeated.wrapping_add(1), ..rest },
                i,
                moved,
            ),
            Faction::Player => lemma_survives(
                GameView { units_lost: g.units_lost.wrapping_add(1), ..rest },
                i,
                moved,
            ),
        }
    } else if es[i].sheltered {
        assert(rest.entities[moved] == es[k]);
        lemma_survives(rest, i, moved);
    } else if i == k {
        lemma_passed_over(g, i + 1, k);
    } else {
        lemma_survives(g, i + 1, k);
    }
}

proof fn lemma_stay_out(g: GameView, huts: Seq<Coord>, n: int, e: EntityView)
    requires
        g.entities.contains(e),
    ensures
        g.all_opened(huts, n).entities.contains(e),
    decreases n,
{
    if n > 0 {
        lemma_stay_out(g, huts, n - 1, e);
        let before = g.all_opened(huts, n - 1);
        reveal(GameView::opened);
        let k = before.entities.index_of(e);
        assert(before.opened(huts[n - 1]).entities[k] == e);
    }
}

/// A tick, of a tenth of a second at most, is a fight and then a turn for everyone there was
/// before it; whoever is on their feet and out of doors after that is on the field when the
/// tick is over, just as their turn left them.
pub proof fn law_survivors_are_left(g: GameView, dt: F32, sim: (i32, i32, i32, i32), i: int)
    requires
        0 <= i < g.prepared(
            dt.min_spec(F32 { bits: 0x3dcc_cccd }),
            sim,
        ).entities.len(),
    ensures
        ({
            let step = dt.min_spec(F32 { bits: 0x3dcc_cccd });
            let ready = g.prepared(step, sim);
            let n = ready.entities.len() as int;
            let acted = ready.fought(step, sim).thought(
                rosters(ready.entities, n),
                ready.turn(step, sim),
                n,
            ).0;
            let e = acted.entities[i];
            i < acted.entities.len() && stands(e) && !e.sheltered ==> g.updated(
                dt,
                sim,
            ).entities.contains(e)
        }),
{
    let step = dt.min_spec(F32 { bits: 0x3dcc_cccd });
    let ready = g.prepared(step, sim);
    let n = ready.entities.len() as int;
    let acted = ready.fought(step, sim).thought(
        rosters(ready.entities, n),
        ready.turn(step, sim),
        n,
    ).0;
    let e = acted.entities[i];
    if i < acted.entities.len() && stands(e) && !e.sheltered {
        lemma_survives(acted, 0, i);
        let alive = acted.cleared_from(0);
        lemma_stay_out(alive, alive.hut_tiles, alive.hut_tiles.len() as int, e);
        let out = alive.all_opened(alive.hut_tiles, alive.hut_tiles.len() as int).rallied();
        assert(g.updated(dt, sim) == out.captured());
        lemma_captured_spares(out);
    }
}

proof fn lemma_growing(g: GameView, i: int, step: F32)
    ensures
        ({
            let after = g.grown_from(i, step);
            after == (GameView { world: after.world, saplings: after.saplings, ..g })
        }),
    decreases g.saplings.len() - i,
{
    if 0 <= i < g.saplings.len() {
        let s = g.saplings[i];
        let grow = s.grow.add_spec(step);
        let rest = swap_removed(g.saplings, i);
        if !g.world.is_open_grass(s.tile.0, s.tile.1) {
            lemma_growing(GameView { saplings: rest, ..g }, i, step);
        } else if (F32 { bits: crate::vec2::ONE }).le_spec(grow) {
            let tree = g.world.set_node(
                s.tile.0,
                s.tile.1,
                crate::chunk::Resource::Wood,
                crate::game::SAPLING_YIELD,
            );
            lemma_growing(GameView { world: tree, saplings: rest, ..g }, i, step);
        } else {
            let young = g.saplings.update(i, crate::game::Sapling { tile: s.tile, grow });
            lemma_growing(GameView { saplings: young, ..g }, i + 1, step);
        }
    }
}

/// Before the fight of a tick nobody is lost: everyone there was is there. First the enemy and
/// then the player may have had a birth, each on its own terms, and the trees have grown.
pub proof fn law_births_come_before_the_fight(
    g: GameView,
    dt: F32,
    sim: (i32, i32, i32, i32),
    i: int,
)
    requires
        0 <= i < g.entities.len(),
    ensures
        ({
            let land = g.surveyed(sim);
            let theirs = land.enemy_raised(dt);
            let raised = theirs.player_raised(dt);
            let ready = g.prepared(dt, sim);
            &&& i < ready.entities.len() && ready.entities[i] == g.entities[i]
            &&& theirs.entities != g.entities ==> ready.entities.len() > g.entities.len()
            &&& raised.entities != theirs.entities ==> ready.entities.last()
                == raised.entities.last() && ready.entities.len() > theirs.entities.len()
            &&& ready == (GameView { world: ready.world, saplings: ready.saplings, ..raised })
            &&& ready.saplings == raised.grown(dt).saplings
            &&& ready.world == raised.grown(dt).world
        }),
{
    reveal(GameView::enemy_raised);
    reveal(GameView::player_raised);
    let raised = g.surveyed(sim).enemy_raised(dt).player_raised(dt);
    lemma_growing(raised, 0, dt.div_spec(F32 { bits: crate::game::SAPLING_GROW_TIME }));
}

} // verus!
