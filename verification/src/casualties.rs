//! Who dies in a tick, and how it is counted.

use vstd::prelude::*;
use crate::battle::{clash_spec, Clash};
use crate::behavior::{SceneView, StepEvent};
use crate::farmer::gather_spec;
use crate::float::F32;
use crate::game::GameView;
use crate::knight::{ai_spec, retreat_spec, soldier_spec};
use crate::rules::{dead_from, law_deaths_are_tallied};
use crate::turn::{TurnView, MAX_STEP};
use crate::unit::{max_hp_for_spec, owner_of_spec, EntityView, Faction, Job, ZERO};
use crate::vec2::Coord;
use crate::village::cluster_spec;

verus! {

/// How many farmers of the faction are lost in the first `n` huts that are hit.
pub open spec fn trapped(g: GameView, huts: Seq<(Coord, F32)>, n: int, f: Faction) -> nat
    decreases n,
{
    if n <= 0 {
        0
    } else {
        let (t, dmg) = huts[n - 1];
        trapped(g, huts, n - 1, f) + match g.huts_hit(huts, n - 1).world.hut_falls(t.0, t.1, dmg) {
            Some(h) => if (h.owner == owner_of_spec(Faction::Player)) == (f == Faction::Player) {
                h.occupants as nat
            } else {
                0nat
            },
            None => 0nat,
        }
    }
}

impl GameView {
    /// The game when the blows of the tick begin to fall.
    pub open spec fn at_blows(self, dt: F32, sim: (i32, i32, i32, i32)) -> GameView {
        self.prepared(dt.min_spec(F32 { bits: MAX_STEP }), sim)
    }

    pub open spec fn blows(self, dt: F32, sim: (i32, i32, i32, i32)) -> Clash {
        let ready = self.at_blows(dt, sim);
        clash_spec(
            ready.world,
            ready.entities,
            sim,
            dt.min_spec(F32 { bits: MAX_STEP }),
            ready.entities.len() as int,
        )
    }

    /// How many units of the faction fall in the fighting of the tick.
    pub open spec fn slain_count(self, dt: F32, sim: (i32, i32, i32, i32), f: Faction) -> nat {
        dead_from(self.at_blows(dt, sim).struck(self.blows(dt, sim)).entities, 0, f)
    }

    /// How many farmers of the faction are lost in huts razed in the tick.
    pub open spec fn trapped_count(self, dt: F32, sim: (i32, i32, i32, i32), f: Faction) -> nat {
        let c = self.blows(dt, sim);
        trapped(self.at_blows(dt, sim).struck(c), c.huts, c.huts.len() as int, f)
    }
}

proof fn lemma_huts_hit(g: GameView, huts: Seq<(Coord, F32)>, n: int)
    requires
        0 <= n,
        g.enemies_defeated + trapped(g, huts, n, Faction::Enemy) <= u32::MAX,
        g.units_lost + trapped(g, huts, n, Faction::Player) <= u32::MAX,
    ensures
        g.huts_hit(huts, n).enemies_defeated == g.enemies_defeated + trapped(
            g,
            huts,
            n,
            Faction::Enemy,
        ),
        g.huts_hit(huts, n).units_lost == g.units_lost + trapped(g, huts, n, Faction::Player),
        g.huts_hit(huts, n).entities == g.entities,
    decreases n,
{
    reveal(GameView::hut_hit);
    if n > 0 {
        lemma_huts_hit(g, huts, n - 1);
    }
}

proof fn lemma_prepared_tallies(g: GameView, dt: F32, sim: (i32, i32, i32, i32))
    ensures
        g.prepared(dt, sim).enemies_defeated == g.enemies_defeated,
        g.prepared(dt, sim).units_lost == g.units_lost,
{
    reveal(GameView::enemy_raised);
    reveal(GameView::player_raised);
    lemma_grown_tallies(
        g.surveyed(sim).enemy_raised(dt).player_raised(dt),
        0,
        dt.div_spec(F32 { bits: crate::game::SAPLING_GROW_TIME }),
    );
}

proof fn lemma_grown_tallies(g: GameView, i: int, step: F32)
    ensures
        g.grown_from(i, step).enemies_defeated == g.enemies_defeated,
        g.grown_from(i, step).units_lost == g.units_lost,
    decreases g.saplings.len() - i,
{
    if 0 <= i < g.saplings.len() {
        let s = g.saplings[i];
        let grow = s.grow.add_spec(step);
        let rest = crate::game::swap_removed(g.saplings, i);
        if !g.world.is_open_grass(s.tile.0, s.tile.1) {
            lemma_grown_tallies(GameView { saplings: rest, ..g }, i, step);
        } else if (F32 { bits: crate::vec2::ONE }).le_spec(grow) {
            lemma_grown_tallies(
                GameView {
                    world: g.world.set_node(
                        s.tile.0,
                        s.tile.1,
                        crate::chunk::Resource::Wood,
                        crate::game::SAPLING_YIELD,
                    ),
                    saplings: rest,
                    ..g
                },
                i,
                step,
            );
        } else {
            lemma_grown_tallies(
                GameView {
                    saplings: g.saplings.update(
                        i,
                        crate::game::Sapling { tile: s.tile, grow },
                    ),
                    ..g
                },
                i + 1,
                step,
            );
        }
    }
}

/// A newcomer is alive.
pub proof fn lemma_full_health(f: Faction, j: Job)
    ensures
        !max_hp_for_spec(f, j).le_spec(F32 { bits: ZERO }),
{
    reveal(F32::le_spec);
}

/// Nobody dies or changes sides by a step of their own, nor is anybody slain raised
/// by it.
pub proof fn lemma_step_spares(
    s: SceneView,
    e: EntityView,
    rng: u64,
    uses: Map<u64, u32>,
    acting: bool,
    under: bool,
    dt: F32,
)
    requires
        !e.slain(),
    ensures
        ({
            let step = ai_spec(s, e, rng, uses, acting, under, dt);
            !step.e.slain() && step.e.faction == e.faction
        }),
{
    reveal(ai_spec);
    let later = EntityView { repath: e.repath.sub_spec(dt), ..e };
    let owner = owner_of_spec(e.faction);
    lemma_full_health(e.faction, Job::Farmer);
    match e.job {
        Job::Knight => {
            if under {
                let _ = retreat_spec(s.world, later, owner, s.home, dt);
            } else {
                lemma_soldier_spares(s, later, rng, uses, owner, acting, dt);
            }
        },
        Job::Farmer => {
            lemma_farmer_spares(s, later, rng, uses, owner, dt);
        },
    }
}

proof fn lemma_soldier_spares(
    s: SceneView,
    e: EntityView,
    rng: u64,
    uses: Map<u64, u32>,
    owner: u8,
    acting: bool,
    dt: F32,
)
    ensures
        ({
            let step = soldier_spec(s, e, rng, uses, owner, acting, dt);
            step.e.hp == e.hp && step.e.faction == e.faction
        }),
{
}

proof fn lemma_farmer_spares(
    s: SceneView,
    e: EntityView,
    rng: u64,
    uses: Map<u64, u32>,
    owner: u8,
    dt: F32,
)
    ensures
        ({
            let step = gather_spec(s, e, rng, uses, owner, dt);
            step.e.hp == e.hp && step.e.faction == e.faction
        }),
{
}

proof fn lemma_happened_spares(g: GameView, i: int, event: Option<StepEvent>)
    requires
        0 <= i < g.entities.len(),
    ensures
        ({
            let after = g.happened(i, event);
            &&& after.enemies_defeated == g.enemies_defeated
            &&& after.units_lost == g.units_lost
            &&& after.entities.len() == g.entities.len()
            &&& forall|k: int|
                0 <= k < g.entities.len() ==> (#[trigger] after.entities[k]).hp == g.entities[k].hp
                    && after.entities[k].faction == g.entities[k].faction
        }),
{
    reveal(GameView::happened);
}

/// The same are slain in both.
pub open spec fn same_dead(a: Seq<EntityView>, b: Seq<EntityView>) -> bool {
    &&& a.len() == b.len()
    &&& forall|k: int|
        0 <= k < a.len() ==> (#[trigger] a[k]).slain() == b[k].slain() && a[k].faction
            == b[k].faction
}

pub proof fn lemma_thought_spares(g: GameView, uses: Map<u64, u32>, turn: TurnView, n: int)
    requires
        0 <= n <= g.entities.len(),
    ensures
        ({
            let after = g.thought(uses, turn, n).0;
            &&& after.enemies_defeated == g.enemies_defeated
            &&& after.units_lost == g.units_lost
            &&& same_dead(after.entities, g.entities)
        }),
    decreases n,
{
    if n > 0 {
        lemma_thought_spares(g, uses, turn, n - 1);
        let (before, u) = g.thought(uses, turn, n - 1);
        reveal(GameView::moved);
        let i = n - 1;
        let e = before.entities[i];
        if crate::game::in_sim_spec(turn.sim, e.tile()) && !e.slain() {
            let under = match e.faction {
                Faction::Player => turn.player_under,
                Faction::Enemy => turn.enemy_under,
            };
            let scene = before.scene(turn, e.faction);
            let step = ai_spec(scene, e, before.rng, u, turn.acting[i], under, turn.dt);
            lemma_step_spares(scene, e, before.rng, u, turn.acting[i], under, turn.dt);
            let stepped = GameView {
                entities: before.entities.update(i, step.e),
                rng: step.rng,
                ..before
            };
            lemma_happened_spares(stepped, i, step.event);
            let after = stepped.happened(i, step.event);
            assert forall|k: int| 0 <= k < after.entities.len() implies (
            #[trigger] after.entities[k]).slain() == g.entities[k].slain()
                && after.entities[k].faction == g.entities[k].faction by {
                assert(stepped.entities[k].hp == after.entities[k].hp);
                assert(before.entities[k].slain() == g.entities[k].slain());
            }
        }
    }
}

proof fn lemma_same_count(a: Seq<EntityView>, b: Seq<EntityView>, i: int, f: Faction)
    requires
        same_dead(a, b),
        0 <= i,
    ensures
        dead_from(a, i, f) == dead_from(b, i, f),
    decreases a.len() - i,
{
    if i < a.len() {
        lemma_same_count(a, b, i + 1, f);
        assert(a[i].slain() == b[i].slain());
    }
}

proof fn lemma_opened_spares(g: GameView, huts: Seq<Coord>, n: int)
    requires
        forall|k: int| 0 <= k < g.entities.len() ==> !(#[trigger] g.entities[k]).slain(),
    ensures
        ({
            let after = g.all_opened(huts, n);
            &&& after.enemies_defeated == g.enemies_defeated
            &&& after.units_lost == g.units_lost
            &&& forall|k: int|
                0 <= k < after.entities.len() ==> !(#[trigger] after.entities[k]).slain()
        }),
    decreases n,
{
    if n > 0 {
        lemma_opened_spares(g, huts, n - 1);
        reveal(GameView::opened);
        lemma_full_health(Faction::Player, Job::Farmer);
        lemma_full_health(Faction::Enemy, Job::Farmer);
    }
}

pub proof fn lemma_captured_spares(g: GameView)
    ensures
        g.captured().entities == g.entities,
        g.captured().enemies_defeated == g.enemies_defeated,
        g.captured().units_lost == g.units_lost,
{
    reveal(GameView::captured);
    let theirs = cluster_spec(g.world.enemy_house_tiles);
    let ours = cluster_spec(g.player_house_tiles);
    lemma_villages_spare(g, theirs, theirs.len() as int);
    lemma_villages_spare(g.won(theirs, theirs.len() as int), ours, ours.len() as int);
}

pub proof fn lemma_villages_spare(g: GameView, villages: Seq<Seq<Coord>>, n: int)
    ensures
        g.won(villages, n).entities == g.entities,
        g.won(villages, n).enemies_defeated == g.enemies_defeated,
        g.won(villages, n).units_lost == g.units_lost,
        g.fallen(villages, n).entities == g.entities,
        g.fallen(villages, n).enemies_defeated == g.enemies_defeated,
        g.fallen(villages, n).units_lost == g.units_lost,
    decreases n,
{
    if n > 0 {
        lemma_villages_spare(g, villages, n - 1);
    }
}

/// Somebody who is not slain has hit points left, if they are a number at all.
proof fn lemma_standing(e: EntityView)
    requires
        !e.slain(),
    ensures
        !e.hp.nan() ==> (F32 { bits: ZERO }).lt_spec(e.hp),
{
    reveal(F32::le_spec);
    reveal(F32::lt_spec);
}

/// A tick leaves nobody slain on the field, and counts everyone who fell once, for
/// the side they belonged to, together with the farmers lost in razed huts. So
/// neither tally ever goes down. (They must still have room.)
pub proof fn law_tick_counts_the_slain(g: GameView, dt: F32, sim: (i32, i32, i32, i32))
    requires
        g.enemies_defeated + g.slain_count(dt, sim, Faction::Enemy) + g.trapped_count(
            dt,
            sim,
            Faction::Enemy,
        ) <= u32::MAX,
        g.units_lost + g.slain_count(dt, sim, Faction::Player) + g.trapped_count(
            dt,
            sim,
            Faction::Player,
        ) <= u32::MAX,
    ensures
        forall|k: int|
            0 <= k < g.updated(dt, sim).entities.len() ==> {
                let e = #[trigger] g.updated(dt, sim).entities[k];
                !e.slain() && (!e.hp.nan() ==> (F32 { bits: ZERO }).lt_spec(e.hp))
            },
        g.updated(dt, sim).enemies_defeated == g.enemies_defeated + g.slain_count(
            dt,
            sim,
            Faction::Enemy,
        ) + g.trapped_count(dt, sim, Faction::Enemy),
        g.updated(dt, sim).units_lost == g.units_lost + g.slain_count(dt, sim, Faction::Player)
            + g.trapped_count(dt, sim, Faction::Player),
{
    let step = dt.min_spec(F32 { bits: MAX_STEP });
    let ready = g.prepared(step, sim);
    lemma_prepared_tallies(g, step, sim);
    let c = g.blows(dt, sim);
    let struck = ready.struck(c);
    lemma_huts_hit(struck, c.huts, c.huts.len() as int);
    let fought = ready.fought(step, sim);
    assert(fought.entities == struck.entities);
    let n = ready.entities.len() as int;
    crate::crowding::lemma_fought_size(ready, step, sim);
    let uses = crate::turn::rosters(ready.entities, n);
    lemma_thought_spares(fought, uses, ready.turn(step, sim), n);
    let acted = fought.thought(uses, ready.turn(step, sim), n).0;
    lemma_same_count(acted.entities, fought.entities, 0, Faction::Enemy);
    lemma_same_count(acted.entities, fought.entities, 0, Faction::Player);
    law_deaths_are_tallied(acted);
    let alive = acted.cleared_from(0);
    assert forall|k: int| 0 <= k < alive.entities.len() implies !(
    #[trigger] alive.entities[k]).slain() by {
        assert(crate::rules::alive_and_out(alive.entities[k]));
    }
    lemma_opened_spares(alive, alive.hut_tiles, alive.hut_tiles.len() as int);
    let out = alive.all_opened(alive.hut_tiles, alive.hut_tiles.len() as int).rallied();
    lemma_captured_spares(out);
    assert forall|k: int| 0 <= k < g.updated(dt, sim).entities.len() implies {
        let e = #[trigger] g.updated(dt, sim).entities[k];
        !e.slain() && (!e.hp.nan() ==> (F32 { bits: ZERO }).lt_spec(e.hp))
    } by {
        let e = g.updated(dt, sim).entities[k];
        assert(out.entities[k] == e);
        lemma_standing(e);
    }
}

} // verus!
