//! Who strikes whom in a round of fighting, and who comes to harm.

use vstd::prelude::*;
use crate::battle::{clash_spec, nearest_foe, snap_of};
use crate::chunk::{Cell, Wall};
use crate::float::{lemma_le_transitive, F32};
use crate::game::GameView;
use crate::grid::{adjacent_spec, neighbor_spec};
use crate::rules::law_edits_are_local;
use crate::survey::{first_neighbor, foreign_hut, foreign_wall};
use crate::unit::{EntityView, Faction, Job};
use crate::vec2::{Coord, Vec2};
use crate::works::mark;
use crate::world::WorldView;

verus! {

/// How far apart two units are, squared.
pub open spec fn apart(snap: Seq<(Vec2, Faction)>, i: int, j: int) -> F32 {
    snap[i].0.distance_squared_spec(snap[j].0)
}

/// The units are on different sides, and no more than 0.9 tiles apart.
pub open spec fn in_reach(snap: Seq<(Vec2, Faction)>, i: int, j: int) -> bool {
    let range = F32 { bits: 0x3f66_6666 };
    &&& 0 <= j < snap.len()
    &&& j != i
    &&& snap[j].1 != snap[i].1
    &&& apart(snap, i, j).le_spec(range.mul_spec(range))
}

proof fn lemma_nearest(snap: Seq<(Vec2, Faction)>, i: int, n: int)
    requires
        0 <= n <= snap.len(),
    ensures
        ({
            let (best, bd) = nearest_foe(snap, i, n);
            match best {
                Some(j) => {
                    &&& j < n
                    &&& in_reach(snap, i, j)
                    &&& bd == apart(snap, i, j)
                    &&& forall|k: int|
                        0 <= k < n && #[trigger] in_reach(snap, i, k) ==> bd.le_spec(
                            apart(snap, i, k),
                        )
                },
                None => bd == (F32 { bits: 0x3f66_6666 }).mul_spec(F32 { bits: 0x3f66_6666 })
                    && forall|k: int| 0 <= k < n ==> !#[trigger] in_reach(snap, i, k),
            }
        }),
    decreases n,
{
    if n > 0 {
        lemma_nearest(snap, i, n - 1);
        let (best, bd) = nearest_foe(snap, i, n - 1);
        let d = apart(snap, i, n - 1);
        let range = F32 { bits: 0x3f66_6666 };
        let reach = range.mul_spec(range);
        let foe = n - 1 != i && snap[n - 1].1 != snap[i].1;
        if best is Some && foe && d.le_spec(bd) {
            lemma_le_transitive(d, bd, reach);
        }
        assert forall|k: int| 0 <= k < n && #[trigger] in_reach(snap, i, k) implies nearest_foe(
            snap,
            i,
            n,
        ).0 is Some && nearest_foe(snap, i, n).1.le_spec(apart(snap, i, k)) by {
            if k < n - 1 {
                if foe && d.le_spec(bd) {
                    lemma_le_transitive(d, bd, apart(snap, i, k));
                }
            } else {
                reveal(F32::le_spec);
            }
        }
    }
}

/// Whoever has a foe in reach strikes the nearest of them; whoever has none strikes nobody.
pub proof fn law_the_nearest_foe_is_struck(snap: Seq<(Vec2, Faction)>, i: int)
    ensures
        match nearest_foe(snap, i, snap.len() as int).0 {
            Some(j) => in_reach(snap, i, j) && forall|k: int| #[trigger]
                in_reach(snap, i, k) ==> apart(snap, i, j).le_spec(apart(snap, i, k)),
            None => forall|k: int| !#[trigger] in_reach(snap, i, k),
        },
{
    lemma_nearest(snap, i, snap.len() as int);
}

/// A wall of another side's stands on the tile.
pub open spec fn bars(w: WorldView, f: Faction, t: Coord) -> bool {
    w.cell(t.0, t.1) matches Some(c) && c.wall is Some && c.wall->0.owner != mark(f)
}

/// A hut of another side's stands on the tile.
pub open spec fn harbours(w: WorldView, f: Faction, t: Coord) -> bool {
    w.cell(t.0, t.1) matches Some(c) && c.hut is Some && c.hut->0.owner != mark(f)
}

proof fn lemma_beside(t: Coord, i: int, will_do: spec_fn(Coord) -> bool)
    requires
        0 <= i <= 4,
    ensures
        first_neighbor(t, i, 4, will_do) matches Some(c) ==> adjacent_spec(t, c) && will_do(c),
        first_neighbor(t, i, 4, will_do) is None ==> forall|k: int|
            i <= k < 4 ==> ((#[trigger] neighbor_spec(t, k)) matches Some(n) ==> !will_do(n)),
    decreases 4 - i,
{
    if i < 4 {
        lemma_beside(t, i + 1, will_do);
    }
}

proof fn lemma_none_beside(t: Coord, will_do: spec_fn(Coord) -> bool, n: Coord)
    requires
        first_neighbor(t, 0, 4, will_do) is None,
        adjacent_spec(t, n),
    ensures
        !will_do(n),
{
    lemma_beside(t, 0, will_do);
    assert(neighbor_spec(t, 0) == Some(n) || neighbor_spec(t, 1) == Some(n) || neighbor_spec(t, 2)
        == Some(n) || neighbor_spec(t, 3) == Some(n));
}

/// The unit may strike: a knight within what is simulated.
pub open spec fn may_strike(es: Seq<EntityView>, sim: (i32, i32, i32, i32), i: int) -> bool {
    es[i].job == Job::Knight && sim.0 <= es[i].tile().0 <= sim.2 && sim.1 <= es[i].tile().1 <= sim.3
}

/// A unit's part in the round. A farmer, or anyone out of sight, does nothing. A knight with
/// a foe in reach deals the nearest 16 hit points a second, and nothing else; one without
/// hacks at a wall of another side's next to it, or else at such a hut; or else does nothing.
pub proof fn law_a_knights_blow(
    w: WorldView,
    es: Seq<EntityView>,
    sim: (i32, i32, i32, i32),
    dt: F32,
    i: int,
)
    requires
        0 <= i < es.len(),
    ensures
        ({
            let before = clash_spec(w, es, sim, dt, i);
            let after = clash_spec(w, es, sim, dt, i + 1);
            let snap = snap_of(es);
            let foe = exists|k: int| #[trigger] in_reach(snap, i, k);
            let wall = exists|t: Coord| #[trigger]
                adjacent_spec(es[i].tile(), t) && bars(w, es[i].faction, t);
            let hut = exists|t: Coord| #[trigger]
                adjacent_spec(es[i].tile(), t) && harbours(w, es[i].faction, t);
            let blow = (F32 { bits: 0x4180_0000 }).mul_spec(dt);
            &&& !may_strike(es, sim, i) ==> after == before
            &&& may_strike(es, sim, i) && foe ==> {
                &&& after.acting == before.acting.update(i, true)
                &&& after.walls == before.walls
                &&& after.huts == before.huts
                &&& exists|j: int| #[trigger]
                    in_reach(snap, i, j) && (forall|k: int| #[trigger]
                        in_reach(snap, i, k) ==> apart(snap, i, j).le_spec(apart(snap, i, k)))
                        && after.damage == before.damage.update(
                        j,
                        before.damage[j].add_spec(blow),
                    )
            }
            &&& may_strike(es, sim, i) && !foe ==> after.damage == before.damage
            &&& may_strike(es, sim, i) && !foe && wall ==> {
                &&& after.acting == before.acting.update(i, true)
                &&& after.huts == before.huts
                &&& exists|t: Coord| #[trigger]
                    adjacent_spec(es[i].tile(), t) && bars(w, es[i].faction, t) && after.walls
                        == crate::battle::added(
                        before.walls,
                        t,
                        (F32 { bits: 0x4190_0000 }).mul_spec(dt),
                        0,
                    )
            }
            &&& may_strike(es, sim, i) && !foe && !wall ==> after.walls == before.walls
            &&& may_strike(es, sim, i) && !foe && !wall && hut ==> {
                &&& after.acting == before.acting.update(i, true)
                &&& exists|t: Coord| #[trigger]
                    adjacent_spec(es[i].tile(), t) && harbours(w, es[i].faction, t) && after.huts
                        == crate::battle::added(
                        before.huts,
                        t,
                        (F32 { bits: 0x4190_0000 }).mul_spec(dt),
                        0,
                    )
            }
            &&& may_strike(es, sim, i) && !foe && !wall && !hut ==> after == before
        }),
{
    let before = clash_spec(w, es, sim, dt, i);
    let after = clash_spec(w, es, sim, dt, i + 1);
    let snap = snap_of(es);
    let owner = mark(es[i].faction);
    let here = es[i].tile();
    law_the_nearest_foe_is_struck(snap, i);
    if may_strike(es, sim, i) {
        match nearest_foe(snap, i, snap.len() as int).0 {
            Some(j) => {
                assert(in_reach(snap, i, j));
            },
            None => {
                let walls = foreign_wall(w, owner);
                let huts = foreign_hut(w, owner);
                lemma_beside(here, 0, walls);
                lemma_beside(here, 0, huts);
                match first_neighbor(here, 0, 4, walls) {
                    Some(t) => {
                        assert(adjacent_spec(here, t) && bars(w, es[i].faction, t));
                    },
                    None => {
                        assert forall|t: Coord| #[trigger] adjacent_spec(here, t) implies !bars(
                            w,
                            es[i].faction,
                            t,
                        ) by {
                            lemma_none_beside(here, walls, t);
                        }
                        match first_neighbor(here, 0, 4, huts) {
                            Some(t) => {
                                assert(adjacent_spec(here, t) && harbours(w, es[i].faction, t));
                            },
                            None => {
                                assert forall|t: Coord| #[trigger] adjacent_spec(
                                    here,
                                    t,
                                ) implies !harbours(w, es[i].faction, t) by {
                                    lemma_none_beside(here, huts, t);
                                }
                            },
                        }
                    },
                }
            },
        }
    }
}

proof fn lemma_sizes(
    w: WorldView,
    es: Seq<EntityView>,
    sim: (i32, i32, i32, i32),
    dt: F32,
    n: int,
)
    requires
        0 <= n <= es.len(),
    ensures
        clash_spec(w, es, sim, dt, n).damage.len() == es.len(),
        clash_spec(w, es, sim, dt, n).acting.len() == es.len(),
    decreases n,
{
    if n > 0 {
        lemma_sizes(w, es, sim, dt, n - 1);
        law_the_nearest_foe_is_struck(snap_of(es), n - 1);
    }
}

/// Whoever no knight of the other side can reach comes to no harm in the round.
pub proof fn law_the_unreached_are_unharmed(
    w: WorldView,
    es: Seq<EntityView>,
    sim: (i32, i32, i32, i32),
    dt: F32,
    j: int,
    n: int,
)
    requires
        0 <= j < es.len(),
        0 <= n <= es.len(),
        forall|i: int|
            0 <= i < es.len() && may_strike(es, sim, i) ==> !(#[trigger] in_reach(
                snap_of(es),
                i,
                j,
            )),
    ensures
        clash_spec(w, es, sim, dt, n).damage[j] == (F32 { bits: 0 }),
    decreases n,
{
    if n > 0 {
        law_the_unreached_are_unharmed(w, es, sim, dt, j, n - 1);
        lemma_sizes(w, es, sim, dt, n - 1);
        law_the_nearest_foe_is_struck(snap_of(es), n - 1);
        law_a_knights_blow(w, es, sim, dt, n - 1);
    }
}

/// What a round costs a unit is what it was dealt, no more and no less; it stays whose it is
/// and what it is, where it is.
pub proof fn law_wounds_are_the_blows(g: GameView, sim: (i32, i32, i32, i32), dt: F32, k: int)
    requires
        0 <= k < g.entities.len(),
    ensures
        ({
            let n = g.entities.len() as int;
            let c = clash_spec(g.world, g.entities, sim, dt, n);
            let after = g.struck(c).entities;
            &&& after.len() == n
            &&& after[k].hp == g.entities[k].hp.sub_spec(c.damage[k])
            &&& after[k].pos == g.entities[k].pos
            &&& after[k].faction == g.entities[k].faction
            &&& after[k].job == g.entities[k].job
            &&& after[k].max_hp == g.entities[k].max_hp
        }),
{
    lemma_same_units(g.world, g.entities, sim, dt, g.entities.len() as int);
}

proof fn lemma_same_units(
    w: WorldView,
    es: Seq<EntityView>,
    sim: (i32, i32, i32, i32),
    dt: F32,
    n: int,
)
    requires
        0 <= n <= es.len(),
    ensures
        ({
            let now = clash_spec(w, es, sim, dt, n).entities;
            &&& now.len() == es.len()
            &&& forall|k: int|
                0 <= k < es.len() ==> #[trigger] now[k] == (EntityView {
                    facing: now[k].facing,
                    ..es[k]
                })
        }),
    decreases n,
{
    if n > 0 {
        lemma_same_units(w, es, sim, dt, n - 1);
    }
}

/// Who is busy fighting: the knights in sight with a foe in reach, or with a wall or hut of
/// another side's next to them, and nobody else.
pub proof fn law_who_fights(
    w: WorldView,
    es: Seq<EntityView>,
    sim: (i32, i32, i32, i32),
    dt: F32,
    i: int,
    n: int,
)
    requires
        0 <= i < es.len(),
        0 <= n <= es.len(),
    ensures
        clash_spec(w, es, sim, dt, n).acting[i] == (i < n && may_strike(es, sim, i) && ((exists|
            k: int,
        | #[trigger]
            in_reach(snap_of(es), i, k)) || (exists|t: Coord| #[trigger]
            adjacent_spec(es[i].tile(), t) && (bars(w, es[i].faction, t) || harbours(
                w,
                es[i].faction,
                t,
            ))))),
    decreases n,
{
    if n > 0 {
        law_who_fights(w, es, sim, dt, i, n - 1);
        lemma_sizes(w, es, sim, dt, n - 1);
        law_a_knights_blow(w, es, sim, dt, n - 1);
    }
}

/// A wall that is hacked at has that much less left, and is gone when nothing is left; the
/// rest of the land stays as it is.
pub proof fn law_walls_crumble(w: WorldView, x: i32, y: i32, dmg: F32, u: i32, v: i32)
    requires
        w.wf(),
        w.wall(x, y) is Some,
    ensures
        ({
            let wall = w.wall(x, y)->0;
            let left = wall.hp.sub_spec(dmg);
            let after = w.damage_wall(x, y, dmg);
            &&& after.wall(x, y) == if left.le_spec(F32 { bits: 0 }) {
                None
            } else {
                Some(Wall { owner: wall.owner, hp: left })
            }
            &&& (u, v) != (x, y) ==> after.cell(u, v) == w.cell(u, v)
            &&& after.at(x, y) == (Cell { wall: after.wall(x, y), ..w.at(x, y) })
        }),
{
    let wall = w.wall(x, y)->0;
    let left = if wall.hp.sub_spec(dmg).le_spec(F32 { bits: 0 }) {
        None
    } else {
        Some(Wall { hp: wall.hp.sub_spec(dmg), ..wall })
    };
    let c = Cell { wall: left, ..w.at(x, y) };
    law_edits_are_local(w, x, y, c, u, v);
    law_edits_are_local(w, x, y, c, x, y);
}

} // verus!
