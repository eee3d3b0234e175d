//! Whom the villages raise, over several births.

use vstd::prelude::*;
use crate::float::F32;
use crate::game::GameView;
use crate::turn::{TurnView, MAX_STEP};
use crate::unit::{Faction, Job, Priority};
use crate::vec2::Coord;
use crate::village::cluster_spec;

verus! {

/// The turn at raising a unit brings one.
pub open spec fn born(before: GameView, after: GameView) -> bool {
    after.entities.len() == before.entities.len() + 1
}

/// One, if the newest unit has that job.
pub open spec fn tally(g: GameView, job: Job) -> nat {
    if g.entities.last().job == job {
        1
    } else {
        0
    }
}

/// Of three of the player's births in a row, under one priority, Agriculture makes two
/// farmers and a knight, and Military a farmer and two knights. Each birth takes up the
/// cycle where the one before left it. (Where the cycle runs over in between, the
/// count can be another.)
pub proof fn law_three_births_keep_the_ratio(
    a: GameView,
    b: GameView,
    c: GameView,
    da: F32,
    db: F32,
    dc: F32,
)
    requires
        born(a, a.player_raised(da)),
        born(b, b.player_raised(db)),
        born(c, c.player_raised(dc)),
        b.player_spawn_cycle == a.player_raised(da).player_spawn_cycle,
        c.player_spawn_cycle == b.player_raised(db).player_spawn_cycle,
        a.priority == b.priority,
        b.priority == c.priority,
        a.player_spawn_cycle + 2 <= u32::MAX,
    ensures
        tally(a.player_raised(da), Job::Farmer) + tally(b.player_raised(db), Job::Farmer) + tally(
            c.player_raised(dc),
            Job::Farmer,
        ) == match a.priority {
            Priority::Agriculture => 2nat,
            Priority::Military => 1nat,
        },
        tally(a.player_raised(da), Job::Knight) + tally(b.player_raised(db), Job::Knight) + tally(
            c.player_raised(dc),
            Job::Knight,
        ) == match a.priority {
            Priority::Agriculture => 1nat,
            Priority::Military => 2nat,
        },
{
    reveal(GameView::player_raised);
    let n = a.player_spawn_cycle;
    assert(n % 3 == 0 || n % 3 == 1 || n % 3 == 2);
    assert(b.player_spawn_cycle == n + 1);
    assert(c.player_spawn_cycle == n + 2);
}

/// Of three of the enemy's births in a row, two are knights and one is a farmer. (Where
/// the cycle runs over in between, the count can be another.)
pub proof fn law_three_enemy_births(
    a: GameView,
    b: GameView,
    c: GameView,
    da: F32,
    db: F32,
    dc: F32,
)
    requires
        born(a, a.enemy_raised(da)),
        born(b, b.enemy_raised(db)),
        born(c, c.enemy_raised(dc)),
        b.enemy_spawn_cycle == a.enemy_raised(da).enemy_spawn_cycle,
        c.enemy_spawn_cycle == b.enemy_raised(db).enemy_spawn_cycle,
        a.enemy_spawn_cycle + 2 <= u32::MAX,
    ensures
        tally(a.enemy_raised(da), Job::Farmer) + tally(b.enemy_raised(db), Job::Farmer) + tally(
            c.enemy_raised(dc),
            Job::Farmer,
        ) == 1,
        tally(a.enemy_raised(da), Job::Knight) + tally(b.enemy_raised(db), Job::Knight) + tally(
            c.enemy_raised(dc),
            Job::Knight,
        ) == 2,
{
    reveal(GameView::enemy_raised);
    let n = a.enemy_spawn_cycle;
    assert(n % 3 == 0 || n % 3 == 1 || n % 3 == 2);
    assert(b.enemy_spawn_cycle == n + 1);
    assert(c.enemy_spawn_cycle == n + 2);
}

/// Both stand at the same place of both cycles.
spec fn in_step(a: GameView, b: GameView) -> bool {
    &&& a.player_spawn_cycle == b.player_spawn_cycle
    &&& a.enemy_spawn_cycle == b.enemy_spawn_cycle
}

proof fn lemma_grown(g: GameView, i: int, step: F32)
    ensures
        in_step(g.grown_from(i, step), g),
    decreases g.saplings.len() - i,
{
    if 0 <= i < g.saplings.len() {
        let s = g.saplings[i];
        let grow = s.grow.add_spec(step);
        let rest = crate::game::swap_removed(g.saplings, i);
        if !g.world.is_open_grass(s.tile.0, s.tile.1) {
            lemma_grown(GameView { saplings: rest, ..g }, i, step);
        } else if (F32 { bits: crate::vec2::ONE }).le_spec(grow) {
            let tree = g.world.set_node(
                s.tile.0,
                s.tile.1,
                crate::chunk::Resource::Wood,
                crate::game::SAPLING_YIELD,
            );
            lemma_grown(GameView { world: tree, saplings: rest, ..g }, i, step);
        } else {
            let young = g.saplings.update(i, crate::game::Sapling { tile: s.tile, grow });
            lemma_grown(GameView { saplings: young, ..g }, i + 1, step);
        }
    }
}

proof fn lemma_huts(g: GameView, huts: Seq<(Coord, F32)>, n: int)
    ensures
        in_step(g.huts_hit(huts, n), g),
    decreases n,
{
    reveal(GameView::hut_hit);
    if n > 0 {
        lemma_huts(g, huts, n - 1);
    }
}

proof fn lemma_thought(g: GameView, uses: Map<u64, u32>, turn: TurnView, n: int)
    ensures
        in_step(g.thought(uses, turn, n).0, g),
    decreases n,
{
    if n > 0 {
        lemma_thought(g, uses, turn, n - 1);
        reveal(GameView::moved);
        reveal(GameView::happened);
    }
}

proof fn lemma_cleared(g: GameView, i: int)
    ensures
        in_step(g.cleared_from(i), g),
    decreases g.entities.len() - i,
{
    if 0 <= i < g.entities.len() {
        let rest = GameView {
            entities: crate::game::swap_removed(g.entities, i),
            ..g
        };
        if g.entities[i].slain() {
            match g.entities[i].faction {
                Faction::Enemy => lemma_cleared(
                    GameView { enemies_defeated: g.enemies_defeated.wrapping_add(1), ..rest },
                    i,
                ),
                Faction::Player => lemma_cleared(
                    GameView { units_lost: g.units_lost.wrapping_add(1), ..rest },
                    i,
                ),
            }
        } else if g.entities[i].sheltered {
            lemma_cleared(rest, i);
        } else {
            lemma_cleared(g, i + 1);
        }
    }
}

proof fn lemma_opened(g: GameView, huts: Seq<Coord>, n: int)
    ensures
        in_step(g.all_opened(huts, n), g),
    decreases n,
{
    if n > 0 {
        lemma_opened(g, huts, n - 1);
        reveal(GameView::opened);
    }
}

proof fn lemma_villages(g: GameView, villages: Seq<Seq<Coord>>, n: int)
    ensures
        in_step(g.won(villages, n), g),
        in_step(g.fallen(villages, n), g),
    decreases n,
{
    if n > 0 {
        lemma_villages(g, villages, n - 1);
    }
}

/// A tick carries the cycles on: they turn with its births, and with nothing else. So
/// births in ticks that follow each other take up the cycle where the last left it.
pub proof fn law_only_births_turn_the_cycle(g: GameView, dt: F32, sim: (i32, i32, i32, i32))
    ensures
        ({
            let step = dt.min_spec(F32 { bits: MAX_STEP });
            let enemy = g.surveyed(sim).enemy_raised(step);
            let both = enemy.player_raised(step);
            let after = g.updated(dt, sim);
            &&& g.surveyed(sim).player_spawn_cycle == g.player_spawn_cycle
            &&& g.surveyed(sim).enemy_spawn_cycle == g.enemy_spawn_cycle
            &&& enemy.player_spawn_cycle == g.player_spawn_cycle
            &&& after.player_spawn_cycle == both.player_spawn_cycle
            &&& after.enemy_spawn_cycle == enemy.enemy_spawn_cycle
            &&& !born(enemy, both) ==> both.player_spawn_cycle == g.player_spawn_cycle
            &&& !born(g.surveyed(sim), enemy) ==> enemy.enemy_spawn_cycle == g.enemy_spawn_cycle
        }),
{
    let step = dt.min_spec(F32 { bits: MAX_STEP });
    reveal(GameView::enemy_raised);
    reveal(GameView::player_raised);
    let both = g.surveyed(sim).enemy_raised(step).player_raised(step);
    lemma_grown(both, 0, step.div_spec(F32 { bits: crate::game::SAPLING_GROW_TIME }));
    let ready = g.prepared(step, sim);
    let c = crate::battle::clash_spec(
        ready.world,
        ready.entities,
        sim,
        step,
        ready.entities.len() as int,
    );
    lemma_huts(ready.struck(c), c.huts, c.huts.len() as int);
    let n = ready.entities.len() as int;
    let uses = crate::turn::rosters(ready.entities, n);
    let fought = ready.fought(step, sim);
    lemma_thought(fought, uses, ready.turn(step, sim), n);
    let acted = fought.thought(uses, ready.turn(step, sim), n).0;
    lemma_cleared(acted, 0);
    let alive = acted.cleared_from(0);
    lemma_opened(alive, alive.hut_tiles, alive.hut_tiles.len() as int);
    let out = alive.all_opened(alive.hut_tiles, alive.hut_tiles.len() as int).rallied();
    reveal(GameView::captured);
    let theirs = cluster_spec(out.world.enemy_house_tiles);
    let ours = cluster_spec(out.player_house_tiles);
    lemma_villages(out, theirs, theirs.len() as int);
    lemma_villages(out.won(theirs, theirs.len() as int), ours, ours.len() as int);
}

} // verus!
