//! No mine is ever worked by more farmers than fit.

use vstd::prelude::*;
use crate::battle::{clash_spec, wounded};
use crate::behavior::{claimed, released, uses_of, SceneView, StepEvent, CAVE_CAPACITY};
use crate::chunk::NO_OWNER;
use crate::farmer::{find_work_spec, gather_spec, resume_spec};
use crate::float::F32;
use crate::founding::{
    camp_rng, camp_site_spec, camp_target, first_anchor, first_land, garrison, new_ground, patched, settled,
    villagers, Camps, CAMP_HOUSES, CAMP_SALT, CAMP_SEARCH, CAMP_TRIES, ENEMY_VILLAGES, PATCH,
};
use crate::game::{swap_removed, GameView};
use crate::grid::lemma_key_injective;
use crate::knight::{ai_spec, soldier_spec};
use crate::pathfind::walks;
use crate::roundtrip::reloaded;
use crate::survey::{land_region, whole_square};
use crate::turn::{rosters, TurnView};
use crate::unit::{EntityView, Faction, Job};
use crate::vec2::Coord;
use crate::world::WorldView;

verus! {

/// How many units hold a claim on a mine.
pub open spec fn claims(es: Seq<EntityView>, c: Coord) -> nat
    decreases es.len(),
{
    if es.len() == 0 {
        0
    } else {
        claims(es.drop_last(), c) + holds(es.last(), c)
    }
}

pub open spec fn holds(e: EntityView, c: Coord) -> nat {
    if e.mine_target == Some(c) {
        1
    } else {
        0
    }
}

/// No mine is claimed by more farmers than fit.
pub open spec fn uncrowded(es: Seq<EntityView>) -> bool {
    forall|c: Coord| #[trigger] claims(es, c) <= CAVE_CAPACITY
}

/// The rosters say how many claims there are.
spec fn tallies(uses: Map<u64, u32>, es: Seq<EntityView>) -> bool {
    forall|c: Coord| #[trigger] uses_of(uses, c) == claims(es, c)
}

proof fn lemma_claims_same(a: Seq<EntityView>, b: Seq<EntityView>, c: Coord)
    requires
        a.len() == b.len(),
        forall|k: int| 0 <= k < a.len() ==> (#[trigger] a[k]).mine_target == b[k].mine_target,
    ensures
        claims(a, c) == claims(b, c),
    decreases a.len(),
{
    if a.len() > 0 {
        assert(a.last() == a[a.len() - 1]);
        assert forall|k: int| 0 <= k < a.len() - 1 implies (#[trigger] a.drop_last()[k]).mine_target
            == b.drop_last()[k].mine_target by {
            assert(a[k].mine_target == b[k].mine_target);
        }
        lemma_claims_same(a.drop_last(), b.drop_last(), c);
    }
}

proof fn lemma_claims_push(es: Seq<EntityView>, e: EntityView, c: Coord)
    ensures
        claims(es.push(e), c) == claims(es, c) + holds(e, c),
{
    assert(es.push(e).drop_last() =~= es);
}

proof fn lemma_claims_update(es: Seq<EntityView>, i: int, e: EntityView, c: Coord)
    requires
        0 <= i < es.len(),
    ensures
        claims(es.update(i, e), c) + holds(es[i], c) == claims(es, c) + holds(e, c),
    decreases es.len(),
{
    let after = es.update(i, e);
    if i == es.len() - 1 {
        assert(after.drop_last() =~= es.drop_last());
    } else {
        assert(after.drop_last() =~= es.drop_last().update(i, e));
        lemma_claims_update(es.drop_last(), i, e, c);
    }
}

proof fn lemma_claims_at_least(es: Seq<EntityView>, i: int, c: Coord)
    requires
        0 <= i < es.len(),
    ensures
        claims(es, c) >= holds(es[i], c),
    decreases es.len(),
{
    if i < es.len() - 1 {
        lemma_claims_at_least(es.drop_last(), i, c);
    }
}

proof fn lemma_claims_swap(es: Seq<EntityView>, i: int, c: Coord)
    requires
        0 <= i < es.len(),
    ensures
        claims(swap_removed(es, i), c) + holds(es[i], c) == claims(es, c),
{
    lemma_claims_update(es, i, es.last(), c);
    let moved = es.update(i, es.last());
    assert(moved.last() == es.last());
}

/// What a step may do to claims: nothing, give one up, or take one where there is
/// room after giving up the old one.
spec fn fair(e: EntityView, uses: Map<u64, u32>, after: EntityView, now: Map<u64, u32>) -> bool {
    let freed = released(uses, e.mine_target);
    ||| now == uses && after.mine_target == e.mine_target
    ||| now == freed && after.mine_target is None
    ||| after.mine_target is Some && uses_of(freed, after.mine_target->0) < CAVE_CAPACITY && now
        == claimed(freed, after.mine_target)
}

proof fn lemma_find_work_fair(
    s: SceneView,
    e: EntityView,
    rng: u64,
    uses: Map<u64, u32>,
    owner: u8,
    dt: F32,
)
    requires
        e.mine_target is None,
    ensures
        ({
            let step = find_work_spec(s, e, rng, uses, owner, dt);
            ||| step.uses == uses && step.e.mine_target is None
            ||| step.e.mine_target is Some && uses_of(uses, step.e.mine_target->0) < CAVE_CAPACITY
                && step.uses == claimed(uses, step.e.mine_target)
        }),
{
    crate::survey::law_nearest(
        s.caves,
        e.tile(),
        crate::behavior::claimable(s.world, owner, s.home, uses),
    );
}

proof fn lemma_resume_fair(
    s: SceneView,
    e: EntityView,
    rng: u64,
    uses: Map<u64, u32>,
    owner: u8,
    dt: F32,
)
    requires
        e.mine_target is None,
    ensures
        ({
            let step = resume_spec(s, e, rng, uses, owner, dt);
            ||| step.uses == uses && step.e.mine_target is None
            ||| step.e.mine_target is Some && uses_of(uses, step.e.mine_target->0) < CAVE_CAPACITY
                && step.uses == claimed(uses, step.e.mine_target)
        }),
{
    lemma_find_work_fair(s, e, rng, uses, owner, dt);
    lemma_find_work_fair(s, EntityView { target_node: None, ..e }, rng, uses, owner, dt);
}

proof fn lemma_gather_fair(
    s: SceneView,
    e: EntityView,
    rng: u64,
    uses: Map<u64, u32>,
    owner: u8,
    dt: F32,
)
    ensures
        ({
            let step = gather_spec(s, e, rng, uses, owner, dt);
            fair(e, uses, step.e, step.uses)
        }),
{
    if e.mine_target is None {
        lemma_resume_fair(s, e, rng, uses, owner, dt);
    }
    lemma_resume_fair(
        s,
        EntityView { mine_target: None, ..e },
        rng,
        released(uses, e.mine_target),
        owner,
        dt,
    );
}

proof fn lemma_soldier_fair(
    s: SceneView,
    e: EntityView,
    rng: u64,
    uses: Map<u64, u32>,
    owner: u8,
    acting: bool,
    dt: F32,
)
    ensures
        ({
            let step = soldier_spec(s, e, rng, uses, owner, acting, dt);
            step.uses == uses && step.e.mine_target == e.mine_target
        }),
{
}

proof fn lemma_step_fair(
    s: SceneView,
    e: EntityView,
    rng: u64,
    uses: Map<u64, u32>,
    acting: bool,
    under: bool,
    dt: F32,
)
    ensures
        ({
            let step = ai_spec(s, e, rng, uses, acting, under, dt);
            fair(e, uses, step.e, step.uses)
        }),
{
    reveal(ai_spec);
    let later = EntityView { repath: e.repath.sub_spec(dt), ..e };
    let owner = crate::unit::owner_of_spec(e.faction);
    match e.job {
        Job::Knight => {
            lemma_soldier_fair(s, later, rng, uses, owner, acting, dt);
        },
        Job::Farmer => {
            lemma_gather_fair(s, later, rng, uses, owner, dt);
        },
    }
}

proof fn lemma_fair_kept(
    es: Seq<EntityView>,
    i: int,
    uses: Map<u64, u32>,
    e: EntityView,
    now: Map<u64, u32>,
)
    requires
        0 <= i < es.len(),
        tallies(uses, es),
        uncrowded(es),
        fair(es[i], uses, e, now),
    ensures
        tallies(now, es.update(i, e)),
        uncrowded(es.update(i, e)),
{
    let after = es.update(i, e);
    let freed = released(uses, es[i].mine_target);
    assert forall|c: Coord| #[trigger] uses_of(freed, c) + holds(es[i], c) == claims(es, c) by {
        assert(uses_of(uses, c) == claims(es, c));
        if let Some(a) = es[i].mine_target {
            lemma_key_injective(a, c);
            assert(uses_of(uses, a) == claims(es, a));
            lemma_claims_at_least(es, i, a);
        }
    }
    assert forall|c: Coord| #[trigger] uses_of(now, c) == claims(after, c) && claims(after, c)
        <= CAVE_CAPACITY by {
        lemma_claims_update(es, i, e, c);
        assert(uses_of(uses, c) == claims(es, c));
        assert(claims(es, c) <= CAVE_CAPACITY);
        assert(uses_of(freed, c) + holds(es[i], c) == claims(es, c));
        if let Some(b) = e.mine_target {
            lemma_key_injective(b, c);
            assert(uses_of(freed, b) + holds(es[i], b) == claims(es, b));
        }
    }
    assert forall|c: Coord| #[trigger] claims(after, c) <= CAVE_CAPACITY by {
        assert(uses_of(now, c) == claims(after, c) && claims(after, c) <= CAVE_CAPACITY);
    }
}

proof fn lemma_rosters(es: Seq<EntityView>, n: int)
    requires
        0 <= n <= es.len(),
        uncrowded(es),
    ensures
        forall|c: Coord| #[trigger] uses_of(rosters(es, n), c) == claims(es.take(n), c),
        forall|c: Coord| #[trigger] claims(es.take(n), c) <= CAVE_CAPACITY,
    decreases es.len() - n,
{
    lemma_prefix_uncrowded(es, n);
    lemma_rosters_up(es, n);
}

proof fn lemma_prefix_uncrowded(es: Seq<EntityView>, n: int)
    requires
        0 <= n <= es.len(),
        uncrowded(es),
    ensures
        uncrowded(es.take(n)),
    decreases es.len() - n,
{
    if n < es.len() {
        lemma_prefix_uncrowded(es, n + 1);
        let longer = es.take(n + 1);
        assert(longer.drop_last() =~= es.take(n));
        assert forall|c: Coord| #[trigger] claims(es.take(n), c) <= CAVE_CAPACITY by {
            assert(claims(longer, c) <= CAVE_CAPACITY);
        }
    } else {
        assert(es.take(n) =~= es);
    }
}

proof fn lemma_rosters_up(es: Seq<EntityView>, n: int)
    requires
        0 <= n <= es.len(),
        uncrowded(es),
    ensures
        forall|c: Coord| #[trigger] uses_of(rosters(es, n), c) == claims(es.take(n), c),
    decreases n,
{
    if n > 0 {
        lemma_rosters_up(es, n - 1);
        lemma_prefix_uncrowded(es, n - 1);
        let before = rosters(es, n - 1);
        let e = es[n - 1];
        assert(es.take(n).drop_last() =~= es.take(n - 1));
        assert forall|c: Coord| #[trigger] uses_of(rosters(es, n), c) == claims(es.take(n), c) by {
            assert(uses_of(before, c) == claims(es.take(n - 1), c));
            if let Some(a) = e.mine_target {
                lemma_key_injective(a, c);
                assert(uses_of(before, a) == claims(es.take(n - 1), a));
                assert(claims(es.take(n - 1), a) <= CAVE_CAPACITY);
            }
        }
    }
}

proof fn lemma_happened_claims(g: GameView, i: int, event: Option<StepEvent>)
    requires
        0 <= i < g.entities.len(),
    ensures
        g.happened(i, event).entities.len() == g.entities.len(),
        forall|k: int|
            0 <= k < g.entities.len() ==> (#[trigger] g.happened(i, event).entities[k]).mine_target
                == g.entities[k].mine_target,
{
    reveal(GameView::happened);
}

proof fn lemma_thought(g: GameView, uses: Map<u64, u32>, turn: TurnView, n: int)
    requires
        0 <= n <= g.entities.len(),
        tallies(uses, g.entities),
        uncrowded(g.entities),
    ensures
        ({
            let (after, now) = g.thought(uses, turn, n);
            &&& after.entities.len() == g.entities.len()
            &&& tallies(now, after.entities)
            &&& uncrowded(after.entities)
        }),
    decreases n,
{
    if n > 0 {
        lemma_thought(g, uses, turn, n - 1);
        let (before, u) = g.thought(uses, turn, n - 1);
        reveal(GameView::moved);
        let i = n - 1;
        let e = before.entities[i];
        if crate::game::in_sim_spec(turn.sim, e.tile()) && !e.slain() {
            let under = match e.faction {
                Faction::Player => turn.player_under,
                Faction::Enemy => turn.enemy_under,
            };
            let scene = before.scene(turn, e.faction);
            let step = ai_spec(scene, e, before.rng, u, turn.acting[i], under, turn.dt);
            lemma_step_fair(scene, e, before.rng, u, turn.acting[i], under, turn.dt);
            lemma_fair_kept(before.entities, i, u, step.e, step.uses);
            let stepped = GameView {
                entities: before.entities.update(i, step.e),
                rng: step.rng,
                ..before
            };
            lemma_happened_claims(stepped, i, step.event);
            let after = stepped.happened(i, step.event);
            assert forall|c: Coord| #[trigger]
                claims(after.entities, c) == claims(stepped.entities, c) by {
                lemma_claims_same(after.entities, stepped.entities, c);
            }
            assert forall|c: Coord| #[trigger] uses_of(step.uses, c) == claims(
                after.entities,
                c,
            ) by {
                assert(uses_of(step.uses, c) == claims(stepped.entities, c));
                assert(claims(after.entities, c) == claims(stepped.entities, c));
            }
            assert forall|c: Coord| #[trigger] claims(after.entities, c) <= CAVE_CAPACITY by {
                assert(claims(after.entities, c) == claims(stepped.entities, c));
                assert(claims(stepped.entities, c) <= CAVE_CAPACITY);
            }
        }
    }
}

proof fn lemma_clash_claims(
    w: crate::world::WorldView,
    before: Seq<EntityView>,
    sim: (i32, i32, i32, i32),
    dt: F32,
    n: int,
)
    requires
        0 <= n <= before.len(),
    ensures
        clash_spec(w, before, sim, dt, n).entities.len() == before.len(),
        forall|k: int|
            0 <= k < before.len() ==> (#[trigger] clash_spec(w, before, sim, dt, n).entities[k]).mine_target
                == before[k].mine_target,
    decreases n,
{
    if n > 0 {
        lemma_clash_claims(w, before, sim, dt, n - 1);
        let prior = clash_spec(w, before, sim, dt, n - 1);
        let now = clash_spec(w, before, sim, dt, n);
        assert forall|k: int| 0 <= k < before.len() implies (#[trigger] now.entities[k]).mine_target
            == before[k].mine_target by {
            assert(prior.entities[k].mine_target == before[k].mine_target);
        }
    }
}

proof fn lemma_fought_claims(g: GameView, dt: F32, sim: (i32, i32, i32, i32))
    ensures
        g.fought(dt, sim).entities.len() == g.entities.len(),
        forall|c: Coord| #[trigger] claims(g.fought(dt, sim).entities, c) == claims(g.entities, c),
{
    let n = g.entities.len() as int;
    let c = clash_spec(g.world, g.entities, sim, dt, n);
    lemma_clash_claims(g.world, g.entities, sim, dt, n);
    let hit = GameView {
        entities: wounded(c.entities, c.damage),
        world: crate::battle::walls_hit(g.world, c.walls, c.walls.len() as int),
        ..g
    };
    crate::turn::lemma_hits_spare_units(hit, c.huts, c.huts.len() as int);
    assert forall|m: Coord| #[trigger] claims(g.fought(dt, sim).entities, m) == claims(
        g.entities,
        m,
    ) by {
        assert forall|k: int| 0 <= k < hit.entities.len() implies (#[trigger] hit.entities[k]).mine_target
            == g.entities[k].mine_target by {
            assert(c.entities[k].mine_target == g.entities[k].mine_target);
        }
        lemma_claims_same(hit.entities, g.entities, m);
    }
}

/// Nobody joins or leaves in the fighting.
pub proof fn lemma_fought_size(g: GameView, dt: F32, sim: (i32, i32, i32, i32))
    ensures
        g.fought(dt, sim).entities.len() == g.entities.len(),
{
    lemma_fought_claims(g, dt, sim);
}

proof fn lemma_raised_claims(g: GameView, dt: F32)
    requires
        uncrowded(g.entities),
    ensures
        uncrowded(g.enemy_raised(dt).entities),
        uncrowded(g.player_raised(dt).entities),
{
    reveal(GameView::enemy_raised);
    reveal(GameView::player_raised);
    let e = g.enemy_raised(dt).entities;
    let p = g.player_raised(dt).entities;
    assert forall|c: Coord| #[trigger] claims(e, c) <= CAVE_CAPACITY by {
        assert(claims(g.entities, c) <= CAVE_CAPACITY);
        if e != g.entities {
            lemma_claims_push(g.entities, e.last(), c);
        }
    }
    assert forall|c: Coord| #[trigger] claims(p, c) <= CAVE_CAPACITY by {
        assert(claims(g.entities, c) <= CAVE_CAPACITY);
        if p != g.entities {
            lemma_claims_push(g.entities, p.last(), c);
        }
    }
}

proof fn lemma_grown_entities(g: GameView, i: int, step: F32)
    ensures
        g.grown_from(i, step).entities == g.entities,
    decreases g.saplings.len() - i,
{
    if 0 <= i < g.saplings.len() {
        let s = g.saplings[i];
        let grow = s.grow.add_spec(step);
        if !g.world.is_open_grass(s.tile.0, s.tile.1) {
            lemma_grown_entities(
                GameView { saplings: swap_removed(g.saplings, i), ..g },
                i,
                step,
            );
        } else if (F32 { bits: crate::vec2::ONE }).le_spec(grow) {
            lemma_grown_entities(
                GameView {
                    world: g.world.set_node(
                        s.tile.0,
                        s.tile.1,
                        crate::chunk::Resource::Wood,
                        crate::game::SAPLING_YIELD,
                    ),
                    saplings: swap_removed(g.saplings, i),
                    ..g
                },
                i,
                step,
            );
        } else {
            lemma_grown_entities(
                GameView {
                    saplings: g.saplings.update(
                        i,
                        crate::game::Sapling { tile: s.tile, grow },
                    ),
                    ..g
                },
                i + 1,
                step,
            );
        }
    }
}

proof fn lemma_cleared_claims(g: GameView, i: int)
    requires
        uncrowded(g.entities),
    ensures
        uncrowded(g.cleared_from(i).entities),
    decreases g.entities.len() - i,
{
    if 0 <= i < g.entities.len() {
        let e = g.entities[i];
        let rest = swap_removed(g.entities, i);
        assert forall|c: Coord| #[trigger] claims(rest, c) <= CAVE_CAPACITY by {
            lemma_claims_swap(g.entities, i, c);
            assert(claims(g.entities, c) <= CAVE_CAPACITY);
        }
        if e.slain() {
            match e.faction {
                Faction::Enemy => {
                    lemma_cleared_claims(
                        GameView {
                            entities: rest,
                            enemies_defeated: g.enemies_defeated.wrapping_add(1),
                            ..g
                        },
                        i,
                    );
                },
                Faction::Player => {
                    lemma_cleared_claims(
                        GameView {
                            entities: rest,
                            units_lost: g.units_lost.wrapping_add(1),
                            ..g
                        },
                        i,
                    );
                },
            }
        } else if e.sheltered {
            lemma_cleared_claims(GameView { entities: rest, ..g }, i);
        } else {
            lemma_cleared_claims(g, i + 1);
        }
    }
}

proof fn lemma_claims_append(es: Seq<EntityView>, e: EntityView, n: nat, c: Coord)
    requires
        e.mine_target is None,
    ensures
        claims(es + Seq::new(n, |k: int| e), c) == claims(es, c),
    decreases n,
{
    let all = es + Seq::new(n, |k: int| e);
    if n == 0 {
        assert(all =~= es);
    } else {
        let less = (n - 1) as nat;
        assert(all.drop_last() =~= es + Seq::new(less, |k: int| e));
        lemma_claims_append(es, e, less, c);
    }
}

proof fn lemma_opened_claims(g: GameView, huts: Seq<Coord>, n: int)
    requires
        uncrowded(g.entities),
    ensures
        uncrowded(g.all_opened(huts, n).entities),
    decreases n,
{
    if n > 0 {
        lemma_opened_claims(g, huts, n - 1);
        let before = g.all_opened(huts, n - 1);
        let t = huts[n - 1];
        let after = before.opened(t);
        reveal(GameView::opened);
        if after.entities != before.entities {
            let h = before.world.hut(t.0, t.1)->0;
            let faction = if h.owner == crate::unit::owner_of_spec(Faction::Player) {
                Faction::Player
            } else {
                Faction::Enemy
            };
            let door = crate::survey::adjacent_walkable_spec(
                before.world.with_occupants(t.0, t.1, 0),
                t.0,
                t.1,
            )->0;
            let farmer = EntityView::fresh(faction, Job::Farmer, door);
            assert(after.entities =~= before.entities + Seq::new(
                h.occupants as nat,
                |k: int| farmer,
            ));
            assert forall|c: Coord| #[trigger] claims(after.entities, c) <= CAVE_CAPACITY by {
                lemma_claims_append(before.entities, farmer, h.occupants as nat, c);
                assert(claims(before.entities, c) <= CAVE_CAPACITY);
            }
        }
    }
}

proof fn lemma_won_entities(g: GameView, villages: Seq<Seq<Coord>>, n: int)
    ensures
        g.won(villages, n).entities == g.entities,
        g.fallen(villages, n).entities == g.entities,
    decreases n,
{
    if n > 0 {
        lemma_won_entities(g, villages, n - 1);
    }
}

/// However a game goes on, no mine is ever worked by more farmers than fit.
pub proof fn law_mines_stay_uncrowded(g: GameView, dt: F32, sim: (i32, i32, i32, i32))
    requires
        uncrowded(g.entities),
    ensures
        uncrowded(g.updated(dt, sim).entities),
{
    let dt = dt.min_spec(F32 { bits: crate::turn::MAX_STEP });
    lemma_raised_claims(g.surveyed(sim), dt);
    lemma_raised_claims(g.surveyed(sim).enemy_raised(dt), dt);
    lemma_grown_entities(
        g.surveyed(sim).enemy_raised(dt).player_raised(dt),
        0,
        dt.div_spec(F32 { bits: crate::game::SAPLING_GROW_TIME }),
    );
    let ready = g.prepared(dt, sim);
    let n = ready.entities.len() as int;
    let uses = rosters(ready.entities, n);
    lemma_rosters(ready.entities, n);
    assert(ready.entities.take(n) =~= ready.entities);
    lemma_fought_claims(ready, dt, sim);
    let fought = ready.fought(dt, sim);
    assert forall|c: Coord| #[trigger] uses_of(uses, c) == claims(fought.entities, c) by {
        assert(claims(fought.entities, c) == claims(ready.entities, c));
        assert(uses_of(uses, c) == claims(ready.entities.take(n), c));
    }
    assert forall|c: Coord| #[trigger] claims(fought.entities, c) <= CAVE_CAPACITY by {
        assert(claims(fought.entities, c) == claims(ready.entities, c));
        assert(claims(ready.entities, c) <= CAVE_CAPACITY);
    }
    lemma_thought(fought, uses, ready.turn(dt, sim), n);
    let acted = fought.thought(uses, ready.turn(dt, sim), n).0;
    lemma_cleared_claims(acted, 0);
    let alive = acted.cleared_from(0);
    lemma_opened_claims(alive, alive.hut_tiles, alive.hut_tiles.len() as int);
    let out = alive.all_opened(alive.hut_tiles, alive.hut_tiles.len() as int).rallied();
    reveal(GameView::captured);
    let theirs = crate::village::cluster_spec(out.world.enemy_house_tiles);
    let ours = crate::village::cluster_spec(out.player_house_tiles);
    lemma_won_entities(out, theirs, theirs.len() as int);
    lemma_won_entities(out.won(theirs, theirs.len() as int), ours, ours.len() as int);
}

/// Nobody is in a mine.
spec fn unclaimed(es: Seq<EntityView>) -> bool {
    forall|k: int| 0 <= k < es.len() ==> (#[trigger] es[k]).mine_target is None
}

proof fn lemma_unclaimed(es: Seq<EntityView>)
    requires
        unclaimed(es),
    ensures
        uncrowded(es),
{
    assert forall|c: Coord| #[trigger] claims(es, c) <= CAVE_CAPACITY by {
        lemma_no_claims(es, c);
    }
}

proof fn lemma_villagers(spots: Seq<Coord>, k: int)
    ensures
        unclaimed(villagers(spots, k)),
    decreases k,
{
    if k > 0 {
        lemma_villagers(spots, k - 1);
    }
}

proof fn lemma_garrison(w: WorldView, houses: Seq<Coord>, k: int)
    ensures
        unclaimed(garrison(w, houses, k)),
    decreases k,
{
    if k > 0 {
        lemma_garrison(w, houses, k - 1);
    }
}

proof fn lemma_peopled(c: Camps, anchor: Coord)
    requires
        unclaimed(c.entities),
    ensures
        unclaimed(c.peopled(anchor).entities),
{
    let w = c.world.plant_camp(anchor, CAMP_HOUSES as int);
    let houses = w.enemy_house_tiles.skip(c.world.enemy_house_tiles.len() as int);
    lemma_garrison(w, houses, 6);
}

proof fn lemma_camps(c: Camps, k: int)
    requires
        unclaimed(c.entities),
    ensures
        unclaimed(c.with_camps(k).entities),
    decreases k,
{
    if k > 0 {
        lemma_camps(c, k - 1);
        let before = c.with_camps(k - 1);
        let target = camp_target(before.rng, k - 1);
        let land = Camps {
            world: land_region(before.world, target, CAMP_SEARCH as int),
            rng: camp_rng(before.rng),
            ..before
        };
        if let Some(anchor) = camp_site_spec(land.world, target) {
            lemma_peopled(land, anchor);
        }
    }
}

proof fn lemma_filled(c: Camps, k: int)
    requires
        unclaimed(c.entities),
    ensures
        unclaimed(c.filled(k).entities),
    decreases k,
{
    if k > 0 {
        lemma_filled(c, k - 1);
        let before = c.filled(k - 1);
        let t = new_ground(before.world.enemy_house_tiles);
        lemma_peopled(Camps { world: patched(before.world, t, PATCH * PATCH), ..before }, t);
    }
}

/// A new game starts without a crowded mine, and a loaded one, too, if it was saved so.
pub proof fn law_mines_start_uncrowded(seed: i32, g: GameView)
    requires
        uncrowded(g.entities),
    ensures
        uncrowded(GameView::founded(seed).entities),
        uncrowded(reloaded(g).entities),
{
    let land = first_land(seed);
    let anchor = first_anchor(land);
    let (world, houses) = settled(land, anchor, 5);
    let people = villagers(whole_square(anchor, 8, walks(world, NO_OWNER)), 6);
    lemma_villagers(whole_square(anchor, 8, walks(world, NO_OWNER)), 6);
    let camps = Camps {
        world,
        entities: people,
        villages: 0,
        rng: ((seed as u64) ^ CAMP_SALT) | 1,
    };
    lemma_camps(camps, CAMP_TRIES as int);
    lemma_filled(camps.with_camps(CAMP_TRIES as int), ENEMY_VILLAGES as int);
    lemma_unclaimed(GameView::founded(seed).entities);
}

proof fn lemma_no_claims(es: Seq<EntityView>, c: Coord)
    requires
        unclaimed(es),
    ensures
        claims(es, c) == 0,
    decreases es.len(),
{
    if es.len() > 0 {
        assert(es[es.len() - 1] == es.last());
        assert forall|k: int| 0 <= k < es.len() - 1 implies (#[trigger] es.drop_last()[k]).mine_target is None by {
            assert(es[k].mine_target is None);
        }
        lemma_no_claims(es.drop_last(), c);
    }
}

} // verus!
