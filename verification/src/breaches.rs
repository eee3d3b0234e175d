//! What a fight leaves of walls and huts: blows add up, and each tile takes its own.

use vstd::prelude::*;
use crate::battle::{added, clash_spec, walls_hit};
use crate::chunk::{Cell, Hut, Wall};
use crate::float::F32;
use crate::game::GameView;
use crate::melee::law_wounds_are_the_blows;
use crate::unit::EntityView;
use crate::vec2::Coord;
use crate::works::lemma_changed;
use crate::world::WorldView;

verus! {

// --- adding up ---------------------------------------------------------------------------

/// Every tile is on the list at most once.
pub open spec fn once_each(list: Seq<(Coord, F32)>) -> bool {
    forall|i: int, j: int|
        0 <= i < list.len() && 0 <= j < list.len() && i != j ==> (#[trigger] list[i]).0 != (
        #[trigger] list[j]).0
}

pub open spec fn listed(list: Seq<(Coord, F32)>, t: Coord) -> bool {
    exists|i: int| 0 <= i < list.len() && (#[trigger] list[i]).0 == t
}

proof fn lemma_added(list: Seq<(Coord, F32)>, t: Coord, dmg: F32, k: int)
    requires
        once_each(list),
        0 <= k <= list.len(),
        forall|i: int| 0 <= i < k ==> (#[trigger] list[i]).0 != t,
    ensures
        ({
            let after = added(list, t, dmg, k);
            if listed(list, t) {
                &&& after.len() == list.len()
                &&& forall|i: int|
                    0 <= i < list.len() ==> #[trigger] after[i] == if list[i].0 == t {
                        (t, list[i].1.add_spec(dmg))
                    } else {
                        list[i]
                    }
            } else {
                after == list.push((t, (F32 { bits: 0 }).add_spec(dmg)))
            }
        }),
    decreases list.len() - k,
{
    if k < list.len() {
        if list[k].0 == t {
            assert(listed(list, t));
        } else {
            lemma_added(list, t, dmg, k + 1);
        }
    }
}

/// A blow at a tile adds to those it has taken, or is the first; what the other tiles have
/// taken stays as it is.
pub proof fn law_blows_add_up(list: Seq<(Coord, F32)>, t: Coord, dmg: F32)
    requires
        once_each(list),
    ensures
        ({
            let after = added(list, t, dmg, 0);
            &&& once_each(after)
            &&& listed(after, t)
            &&& after.len() == list.len() + if listed(list, t) {
                0int
            } else {
                1
            }
            &&& forall|i: int|
                0 <= i < list.len() ==> #[trigger] after[i] == if list[i].0 == t {
                    (t, list[i].1.add_spec(dmg))
                } else {
                    list[i]
                }
            &&& !listed(list, t) ==> after.last() == (t, (F32 { bits: 0 }).add_spec(dmg))
        }),
{
    lemma_added(list, t, dmg, 0);
    let after = added(list, t, dmg, 0);
    if listed(list, t) {
        let i = choose|i: int| 0 <= i < list.len() && (#[trigger] list[i]).0 == t;
        assert(after[i].0 == t);
    } else {
        assert(after[list.len() as int].0 == t);
        assert forall|i: int| 0 <= i < list.len() implies (#[trigger] list[i]).0 != t by {
            assert(!listed(list, t));
        }
    }
}

proof fn lemma_lists(
    w: WorldView,
    es: Seq<EntityView>,
    sim: (i32, i32, i32, i32),
    dt: F32,
    n: int,
)
    requires
        0 <= n <= es.len(),
    ensures
        once_each(clash_spec(w, es, sim, dt, n).walls),
        once_each(clash_spec(w, es, sim, dt, n).huts),
    decreases n,
{
    if n > 0 {
        lemma_lists(w, es, sim, dt, n - 1);
        let c = clash_spec(w, es, sim, dt, n - 1);
        let dmg = (F32 { bits: crate::battle::WALL_DPS }).mul_spec(dt);
        assert forall|t: Coord| once_each(#[trigger] added(c.walls, t, dmg, 0)) by {
            law_blows_add_up(c.walls, t, dmg);
        }
        assert forall|t: Coord| once_each(#[trigger] added(c.huts, t, dmg, 0)) by {
            law_blows_add_up(c.huts, t, dmg);
        }
    }
}

// --- walls -------------------------------------------------------------------------------

/// A wall after a blow: that much weaker, or gone.
pub open spec fn battered(wall: Option<Wall>, dmg: F32) -> Option<Wall> {
    match wall {
        Some(v) => if v.hp.sub_spec(dmg).le_spec(F32 { bits: 0 }) {
            None
        } else {
            Some(Wall { owner: v.owner, hp: v.hp.sub_spec(dmg) })
        },
        None => None,
    }
}

/// A hut after a blow: that much weaker, or gone.
pub open spec fn shaken(hut: Option<Hut>, dmg: F32) -> Option<Hut> {
    match hut {
        Some(h) => if h.hp.sub_spec(dmg).le_spec(F32 { bits: 0 }) {
            None
        } else {
            Some(Hut { owner: h.owner, hp: h.hp.sub_spec(dmg), occupants: h.occupants })
        },
        None => None,
    }
}

proof fn lemma_wall_hit(w: WorldView, t: Coord, dmg: F32, u: Coord)
    requires
        w.wf(),
    ensures
        w.damage_wall(t.0, t.1, dmg).wf(),
        w.damage_wall(t.0, t.1, dmg).wall(u.0, u.1) == if u == t {
            battered(w.wall(t.0, t.1), dmg)
        } else {
            w.wall(u.0, u.1)
        },
        w.damage_wall(t.0, t.1, dmg).hut(u.0, u.1) == w.hut(u.0, u.1),
{
    if let Some(v) = w.wall(t.0, t.1) {
        let c = Cell {
            wall: if v.hp.sub_spec(dmg).le_spec(F32 { bits: 0 }) {
                None
            } else {
                Some(Wall { hp: v.hp.sub_spec(dmg), ..v })
            },
            ..w.at(t.0, t.1)
        };
        lemma_changed(w, t.0, t.1, c);
        if u != t {
            assert(w.with_cell(t.0, t.1, c).cell(u.0, u.1) == w.cell(u.0, u.1));
        }
    }
}

/// Every wall that was struck takes the blows that were dealt it, and no other wall is touched.
pub proof fn law_walls_take_their_blows(
    w: WorldView,
    walls: Seq<(Coord, F32)>,
    n: int,
    k: int,
    u: Coord,
)
    requires
        w.wf(),
        once_each(walls),
        0 <= k < walls.len(),
        0 <= n <= walls.len(),
    ensures
        walls_hit(w, walls, n).wf(),
        walls_hit(w, walls, n).wall((walls[k].0).0, (walls[k].0).1) == if k < n {
            battered(w.wall((walls[k].0).0, (walls[k].0).1), walls[k].1)
        } else {
            w.wall((walls[k].0).0, (walls[k].0).1)
        },
        !listed(walls, u) ==> walls_hit(w, walls, n).wall(u.0, u.1) == w.wall(u.0, u.1),
        walls_hit(w, walls, n).hut(u.0, u.1) == w.hut(u.0, u.1),
    decreases n,
{
    if n > 0 {
        law_walls_take_their_blows(w, walls, n - 1, k, u);
        let before = walls_hit(w, walls, n - 1);
        let (t, dmg) = walls[n - 1];
        lemma_wall_hit(before, t, dmg, walls[k].0);
        lemma_wall_hit(before, t, dmg, u);
    }
}

proof fn lemma_untouched_walls(w: WorldView, walls: Seq<(Coord, F32)>, n: int, u: Coord)
    requires
        w.wf(),
        0 <= n <= walls.len(),
        !listed(walls, u),
    ensures
        walls_hit(w, walls, n).wf(),
        walls_hit(w, walls, n).wall(u.0, u.1) == w.wall(u.0, u.1),
    decreases n,
{
    if n > 0 {
        lemma_untouched_walls(w, walls, n - 1, u);
        lemma_wall_hit(walls_hit(w, walls, n - 1), walls[n - 1].0, walls[n - 1].1, u);
    }
}

proof fn lemma_huts_stay(w: WorldView, walls: Seq<(Coord, F32)>, n: int, u: Coord)
    requires
        w.wf(),
        0 <= n <= walls.len(),
    ensures
        walls_hit(w, walls, n).wf(),
        walls_hit(w, walls, n).hut(u.0, u.1) == w.hut(u.0, u.1),
    decreases n,
{
    if n > 0 {
        lemma_huts_stay(w, walls, n - 1, u);
        lemma_wall_hit(walls_hit(w, walls, n - 1), walls[n - 1].0, walls[n - 1].1, u);
    }
}

// --- huts --------------------------------------------------------------------------------

proof fn lemma_hut_hit(g: GameView, t: Coord, dmg: F32, u: Coord)
    requires
        g.world.wf(),
    ensures
        g.hut_hit(t, dmg).world.wf(),
        g.hut_hit(t, dmg).entities == g.entities,
        g.hut_hit(t, dmg).world.hut(u.0, u.1) == if u == t {
            shaken(g.world.hut(t.0, t.1), dmg)
        } else {
            g.world.hut(u.0, u.1)
        },
        g.hut_hit(t, dmg).world.wall(u.0, u.1) == g.world.wall(u.0, u.1),
{
    reveal(GameView::hut_hit);
    let w = g.world;
    if let Some(h) = w.hut(t.0, t.1) {
        let c = Cell {
            hut: if h.hp.sub_spec(dmg).le_spec(F32 { bits: 0 }) {
                None
            } else {
                Some(Hut { hp: h.hp.sub_spec(dmg), ..h })
            },
            ..w.at(t.0, t.1)
        };
        lemma_changed(w, t.0, t.1, c);
        if u != t {
            assert(w.with_cell(t.0, t.1, c).cell(u.0, u.1) == w.cell(u.0, u.1));
        }
    }
}

/// Every hut that was struck takes the blows that were dealt it, and no other hut is touched,
/// nor any wall, nor anyone outside.
pub proof fn law_huts_take_their_blows(
    g: GameView,
    huts: Seq<(Coord, F32)>,
    n: int,
    u: Coord,
)
    requires
        g.world.wf(),
        once_each(huts),
        0 <= n <= huts.len(),
    ensures
        g.huts_hit(huts, n).world.wf(),
        g.huts_hit(huts, n).entities == g.entities,
        g.huts_hit(huts, n).world.wall(u.0, u.1) == g.world.wall(u.0, u.1),
        !listed(huts, u) ==> g.huts_hit(huts, n).world.hut(u.0, u.1) == g.world.hut(u.0, u.1),
        forall|k: int|
            0 <= k < huts.len() && (#[trigger] huts[k]).0 == u ==> g.huts_hit(
                huts,
                n,
            ).world.hut(u.0, u.1) == if k < n {
                shaken(g.world.hut(u.0, u.1), huts[k].1)
            } else {
                g.world.hut(u.0, u.1)
            },
    decreases n,
{
    if n > 0 {
        law_huts_take_their_blows(g, huts, n - 1, u);
        let before = g.huts_hit(huts, n - 1);
        lemma_hut_hit(before, huts[n - 1].0, huts[n - 1].1, u);
    }
}

// --- the fight ---------------------------------------------------------------------------

/// A fight leaves its mark on everyone and everything that was struck in it: units, walls and
/// huts each lose what they were dealt, and whatever was not struck is as it was.
pub proof fn law_a_fight_leaves_its_mark(
    g: GameView,
    dt: F32,
    sim: (i32, i32, i32, i32),
    i: int,
    u: Coord,
)
    requires
        g.world.wf(),
    ensures
        ({
            let c = clash_spec(g.world, g.entities, sim, dt, g.entities.len() as int);
            let after = g.fought(dt, sim);
            &&& 0 <= i < g.entities.len() ==> after.entities.len() == g.entities.len()
                && after.entities[i].hp == g.entities[i].hp.sub_spec(c.damage[i])
                && after.entities[i].pos == g.entities[i].pos
            &&& !listed(c.walls, u) ==> after.world.wall(u.0, u.1) == g.world.wall(u.0, u.1)
            &&& !listed(c.huts, u) ==> after.world.hut(u.0, u.1) == g.world.hut(u.0, u.1)
            &&& forall|k: int|
                0 <= k < c.walls.len() && (#[trigger] c.walls[k]).0 == u ==> after.world.wall(
                    u.0,
                    u.1,
                ) == battered(g.world.wall(u.0, u.1), c.walls[k].1)
            &&& forall|k: int|
                0 <= k < c.huts.len() && (#[trigger] c.huts[k]).0 == u ==> after.world.hut(
                    u.0,
                    u.1,
                ) == shaken(g.world.hut(u.0, u.1), c.huts[k].1)
        }),
{
    let n = g.entities.len() as int;
    let c = clash_spec(g.world, g.entities, sim, dt, n);
    lemma_lists(g.world, g.entities, sim, dt, n);
    let m = c.walls.len() as int;
    lemma_huts_stay(g.world, c.walls, m, u);
    if !listed(c.walls, u) {
        lemma_untouched_walls(g.world, c.walls, m, u);
    }
    assert forall|k: int| 0 <= k < m && (#[trigger] c.walls[k]).0 == u implies walls_hit(
        g.world,
        c.walls,
        m,
    ).wall(u.0, u.1) == battered(g.world.wall(u.0, u.1), c.walls[k].1) by {
        law_walls_take_their_blows(g.world, c.walls, m, k, u);
    }
    law_huts_take_their_blows(g.struck(c), c.huts, c.huts.len() as int, u);
    if 0 <= i < n {
        law_wounds_are_the_blows(g, sim, dt, i);
    }
}

} // verus!
