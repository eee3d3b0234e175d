//! Whom the knights go after, and how.

use vstd::prelude::*;
use crate::battle::snap_of;
use crate::behavior::{among, sieges, SceneView, PATH_BUDGET};
use crate::float::F32;
use crate::game::GameView;
use crate::knight::{ai_spec, foes_spec};
use crate::pathfind::{
    bfs_spec, encloses, is_route, law_bfs_complete, law_bfs_route, law_bfs_shortest, walks,
};
use crate::turn::TurnView;
use crate::unit::{owner_of_spec, EntityView, Faction, Job, ZERO};
use crate::vec2::{Coord, Vec2};

verus! {

/// A unit of another side than the faction stands on the tile.
pub open spec fn foe_stands_on(snap: Seq<(Vec2, Faction)>, faction: Faction, t: Coord) -> bool {
    exists|i: int|
        0 <= i < snap.len() && (#[trigger] snap[i]).1 != faction && snap[i].0.tile_spec() == t
}

/// Tiles on which a foe of the faction stands.
pub open spec fn foe_tiles(snap: Seq<(Vec2, Faction)>, faction: Faction) -> spec_fn(Coord) -> bool {
    |t: Coord| foe_stands_on(snap, faction, t)
}

/// What a side aims at: every tile on which a unit of the other side stands, and no tile
/// on which none does.
pub proof fn law_foes_are_the_other_side(snap: Seq<(Vec2, Faction)>, faction: Faction, t: Coord)
    ensures
        foes_spec(snap, faction).contains(t) == foe_stands_on(snap, faction, t),
    decreases snap.len(),
{
    if snap.len() > 0 {
        let rest = snap.drop_last();
        law_foes_are_the_other_side(rest, faction, t);
        let before = foes_spec(rest, faction);
        let now = foes_spec(snap, faction);
        let last = snap.last();
        if foe_stands_on(rest, faction, t) {
            let i = choose|i: int|
                0 <= i < rest.len() && (#[trigger] rest[i]).1 != faction && rest[i].0.tile_spec()
                    == t;
            assert(snap[i].1 != faction);
            let k = before.index_of(t);
            assert(now[k] == t);
        }
        if last.1 != faction && last.0.tile_spec() == t {
            assert(snap[snap.len() - 1].1 != faction);
            assert(now.last() == t);
        }
        if now.contains(t) && !before.contains(t) {
            let k = now.index_of(t);
            if k < before.len() {
                assert(before[k] == t);
            }
            assert(k == before.len());
            assert(snap[snap.len() - 1].1 != faction);
        }
        if foe_stands_on(snap, faction, t) && !foe_stands_on(rest, faction, t) {
            let i = choose|i: int|
                0 <= i < snap.len() && (#[trigger] snap[i]).1 != faction && snap[i].0.tile_spec()
                    == t;
            if i < rest.len() {
                assert(rest[i] == snap[i]);
            }
        }
    }
}

/// A knight that is on duty and free to look for somebody to fight: no flag calls, no
/// work is in hand, nobody is in striking range, and it is time to look for a way.
pub open spec fn looks_for_a_fight(
    s: SceneView,
    e: EntityView,
    acting: bool,
    under_limit: bool,
    dt: F32,
) -> bool {
    &&& e.job == Job::Knight
    &&& !under_limit
    &&& s.rally is None
    &&& !acting
    &&& !(F32 { bits: ZERO }).lt_spec(e.harvest_timer)
    &&& e.repath.sub_spec(dt).le_spec(F32 { bits: ZERO }) || e.path_cursor >= e.path.len()
    &&& !foe_stands_on(s.snap, e.faction, e.tile())
}

/// The two predicates say the same of every tile, so they are the same.
proof fn lemma_targets(snap: Seq<(Vec2, Faction)>, faction: Faction)
    ensures
        among(foes_spec(snap, faction)) == foe_tiles(snap, faction),
{
    assert forall|t: Coord| #[trigger]
        foes_spec(snap, faction).contains(t) == foe_stands_on(snap, faction, t) by {
        law_foes_are_the_other_side(snap, faction, t);
    }
    assert(among(foes_spec(snap, faction)) =~= foe_tiles(snap, faction));
}

/// The path is a shortest way to a foe over tiles that will do.
pub open spec fn leads_to_nearest_foe(
    s: SceneView,
    e: EntityView,
    path: Seq<Coord>,
    pass: spec_fn(Coord) -> bool,
) -> bool {
    let goal = foe_tiles(s.snap, e.faction);
    &&& path.len() > 0
    &&& foe_stands_on(s.snap, e.faction, path.last())
    &&& is_route(e.tile(), path, goal, pass)
    &&& forall|w: Seq<Coord>| #[trigger] is_route(e.tile(), w, goal, pass) ==> path.len() <= w.len()
}

proof fn lemma_way(
    s: SceneView,
    e: EntityView,
    pass: spec_fn(Coord) -> bool,
    w: Seq<Coord>,
    room: Set<Coord>,
)
    requires
        !foe_stands_on(s.snap, e.faction, e.tile()),
        is_route(e.tile(), w, foe_tiles(s.snap, e.faction), pass),
        encloses(room, e.tile(), pass),
        room.finite(),
        room.len() <= PATH_BUDGET,
    ensures
        ({
            let found = bfs_spec(
                e.tile(),
                PATH_BUDGET as int,
                foe_tiles(s.snap, e.faction),
                pass,
            );
            found is Some && leads_to_nearest_foe(s, e, found->0, pass)
        }),
{
    let goal = foe_tiles(s.snap, e.faction);
    let start = e.tile();
    law_bfs_complete(start, PATH_BUDGET as int, goal, pass, w, room);
    law_bfs_route(start, PATH_BUDGET as int, goal, pass);
    let p = bfs_spec(start, PATH_BUDGET as int, goal, pass)->0;
    assert(goal(crate::pathfind::before_step(start, p, p.len() as int)));
    assert forall|v: Seq<Coord>| #[trigger] is_route(start, v, goal, pass) implies p.len()
        <= v.len() by {
        law_bfs_shortest(start, PATH_BUDGET as int, goal, pass, v);
    }
}

/// A knight that looks for a fight goes for the nearest foe it can reach: where there is
/// a way to one over tiles it can walk on, it is on a shortest such way after its step.
/// (The tiles it can reach must be within its budget.)
pub proof fn law_knights_hunt_the_nearest_foe(
    s: SceneView,
    e: EntityView,
    rng: u64,
    uses: Map<u64, u32>,
    acting: bool,
    under_limit: bool,
    dt: F32,
    way: Seq<Coord>,
    room: Set<Coord>,
)
    requires
        looks_for_a_fight(s, e, acting, under_limit, dt),
        is_route(
            e.tile(),
            way,
            foe_tiles(s.snap, e.faction),
            walks(s.world, owner_of_spec(e.faction)),
        ),
        encloses(room, e.tile(), walks(s.world, owner_of_spec(e.faction))),
        room.finite(),
        room.len() <= PATH_BUDGET,
    ensures
        ({
            let step = ai_spec(s, e, rng, uses, acting, under_limit, dt);
            &&& leads_to_nearest_foe(
                s,
                e,
                step.e.path,
                walks(s.world, owner_of_spec(e.faction)),
            )
            &&& step.e.path_cursor <= 1
            &&& step.event is None
            &&& step.e.faction == e.faction
        }),
{
    reveal(ai_spec);
    let owner = owner_of_spec(e.faction);
    let pass = walks(s.world, owner);
    lemma_targets(s.snap, e.faction);
    lemma_way(s, e, pass, way, room);
    let goal = foe_tiles(s.snap, e.faction);
    let p = bfs_spec(e.tile(), PATH_BUDGET as int, goal, pass)->0;
    assert(foes_spec(s.snap, e.faction).contains(p.last())) by {
        law_foes_are_the_other_side(s.snap, e.faction, p.last());
    }
    let later = EntityView { repath: e.repath.sub_spec(dt), ..e };
    assert(later.tile() == e.tile());
}

/// Where trees and rocks bar every way to the foe, the knight goes through them, again on
/// a shortest way.
pub proof fn law_knights_break_through(
    s: SceneView,
    e: EntityView,
    rng: u64,
    uses: Map<u64, u32>,
    acting: bool,
    under_limit: bool,
    dt: F32,
    way: Seq<Coord>,
    room: Set<Coord>,
)
    requires
        looks_for_a_fight(s, e, acting, under_limit, dt),
        forall|w: Seq<Coord>|
            !(#[trigger] is_route(
                e.tile(),
                w,
                foe_tiles(s.snap, e.faction),
                walks(s.world, owner_of_spec(e.faction)),
            )),
        is_route(
            e.tile(),
            way,
            foe_tiles(s.snap, e.faction),
            sieges(s.world, owner_of_spec(e.faction)),
        ),
        encloses(room, e.tile(), sieges(s.world, owner_of_spec(e.faction))),
        room.finite(),
        room.len() <= PATH_BUDGET,
    ensures
        ({
            let step = ai_spec(s, e, rng, uses, acting, under_limit, dt);
            leads_to_nearest_foe(s, e, step.e.path, sieges(s.world, owner_of_spec(e.faction)))
        }),
{
    reveal(ai_spec);
    let owner = owner_of_spec(e.faction);
    let pass = sieges(s.world, owner);
    lemma_targets(s.snap, e.faction);
    lemma_way(s, e, pass, way, room);
    let goal = foe_tiles(s.snap, e.faction);
    law_bfs_route(e.tile(), PATH_BUDGET as int, goal, walks(s.world, owner));
    let p = bfs_spec(e.tile(), PATH_BUDGET as int, goal, pass)->0;
    assert(foes_spec(s.snap, e.faction).contains(p.last())) by {
        law_foes_are_the_other_side(s.snap, e.faction, p.last());
    }
    let later = EntityView { repath: e.repath.sub_spec(dt), ..e };
    assert(later.tile() == e.tile());
}

/// A knight's turn in a tick: where a foe, as everyone stood when the tick began, can be
/// walked to, the knight is on a shortest way to one afterwards.
pub proof fn law_knights_turn_to_the_foe(
    g: GameView,
    uses: Map<u64, u32>,
    turn: TurnView,
    i: int,
    way: Seq<Coord>,
    room: Set<Coord>,
)
    requires
        0 <= i < g.entities.len(),
        crate::game::in_sim_spec(turn.sim, g.entities[i].tile()),
        !g.entities[i].slain(),
        g.entities[i].job == Job::Knight,
        g.entities[i].faction == Faction::Player ==> !turn.player_under && g.rally_point is None,
        g.entities[i].faction == Faction::Enemy ==> !turn.enemy_under,
        !turn.acting[i],
        !(F32 { bits: ZERO }).lt_spec(g.entities[i].harvest_timer),
        g.entities[i].path_cursor >= g.entities[i].path.len(),
        !foe_stands_on(turn.snap, g.entities[i].faction, g.entities[i].tile()),
        is_route(
            g.entities[i].tile(),
            way,
            foe_tiles(turn.snap, g.entities[i].faction),
            walks(g.world, owner_of_spec(g.entities[i].faction)),
        ),
        encloses(
            room,
            g.entities[i].tile(),
            walks(g.world, owner_of_spec(g.entities[i].faction)),
        ),
        room.finite(),
        room.len() <= PATH_BUDGET,
    ensures
        ({
            let e = g.entities[i];
            let after = g.moved(uses, turn, i).0;
            let path = after.entities[i].path;
            let goal = foe_tiles(turn.snap, e.faction);
            let pass = walks(g.world, owner_of_spec(e.faction));
            &&& path.len() > 0
            &&& foe_stands_on(turn.snap, e.faction, path.last())
            &&& is_route(e.tile(), path, goal, pass)
            &&& path.len() <= way.len()
            &&& after.world == g.world
            &&& after.entities == g.entities.update(i, after.entities[i])
        }),
{
    reveal(GameView::moved);
    reveal(GameView::happened);
    let e = g.entities[i];
    let under = match e.faction {
        Faction::Player => turn.player_under,
        Faction::Enemy => turn.enemy_under,
    };
    law_knights_hunt_the_nearest_foe(
        g.scene(turn, e.faction),
        e,
        g.rng,
        uses,
        turn.acting[i],
        under,
        turn.dt,
        way,
        room,
    );
}

/// Everyone who is in the field when a tick begins is known to all, where they stand and
/// with their side: a unit has a foe on a tile just where one of the other side stands.
pub proof fn law_everyone_is_seen(es: Seq<EntityView>, faction: Faction, t: Coord)
    ensures
        foe_stands_on(snap_of(es), faction, t) == exists|k: int|
            0 <= k < es.len() && (#[trigger] es[k]).faction != faction && es[k].tile() == t,
{
    let snap = snap_of(es);
    if foe_stands_on(snap, faction, t) {
        let i = choose|i: int|
            0 <= i < snap.len() && (#[trigger] snap[i]).1 != faction && snap[i].0.tile_spec() == t;
        assert(es[i].faction != faction && es[i].tile() == t);
    }
    if exists|k: int| 0 <= k < es.len() && (#[trigger] es[k]).faction != faction && es[k].tile() == t {
        let k = choose|k: int|
            0 <= k < es.len() && (#[trigger] es[k]).faction != faction && es[k].tile() == t;
        assert(snap[k].1 != faction && snap[k].0.tile_spec() == t);
    }
}

} // verus!
