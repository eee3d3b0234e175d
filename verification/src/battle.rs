//! One round of fighting: who strikes whom, and what becomes of walls and huts
//! that are hacked at.

use vstd::prelude::*;
use crate::float::F32;
use crate::game::{in_sim, in_sim_spec, remove_tile, units_of, without, Game, GameView};
use crate::survey::{
    adjacent_enemy_hut, adjacent_enemy_wall, first_neighbor, foreign_hut, foreign_wall,
};
use crate::unit::{
    dir_from_vec, dir_from_vec_spec, owner_of, owner_of_spec, Entity, EntityView, Faction, Job,
    ZERO,
};
use crate::vec2::{tile_center, tile_center_spec, Coord, Vec2};
use crate::world::{World, WorldView};

verus! {

/// How far a blow reaches: 0.9 tiles.
pub const COMBAT_RANGE: u32 = 0x3f66_6666;

/// Damage per second in a fight: 16.
pub const ATTACK_DPS: u32 = 0x4180_0000;

/// Damage per second to walls and huts: 18.
pub const WALL_DPS: u32 = 0x4190_0000;

/// The square of the range.
pub open spec fn reach_squared() -> F32 {
    (F32 { bits: COMBAT_RANGE }).mul_spec(F32 { bits: COMBAT_RANGE })
}

/// Everyone's whereabouts.
pub open spec fn snap_of(entities: Seq<EntityView>) -> Seq<(Vec2, Faction)> {
    Seq::new(entities.len(), |i: int| (entities[i].pos, entities[i].faction))
}

/// The nearest of the first `n` units that unit `i` can strike (the latest of
/// several as near), and how near it is, squared.
pub open spec fn nearest_foe(snap: Seq<(Vec2, Faction)>, i: int, n: int) -> (Option<int>, F32)
    decreases n,
{
    if n <= 0 {
        (None, reach_squared())
    } else {
        let (best, bd) = nearest_foe(snap, i, n - 1);
        let j = n - 1;
        let d = snap[i].0.distance_squared_spec(snap[j].0);
        if j != i && snap[j].1 != snap[i].1 && d.le_spec(bd) {
            (Some(j), d)
        } else {
            (best, bd)
        }
    }
}

fn find_foe(snap: &Vec<(Vec2, Faction)>, i: usize) -> (r: Option<usize>)
    requires
        i < snap.len(),
    ensures
        match r {
            Some(j) => nearest_foe(snap@, i as int, snap@.len() as int).0 == Some(j as int) && j
                < snap.len(),
            None => nearest_foe(snap@, i as int, snap@.len() as int).0 is None,
        },
{
    let range: F32 = F32 { bits: COMBAT_RANGE };
    let mut best: Option<usize> = None;
    let mut bd: F32 = range.mul(range);
    let mut j: usize = 0;
    while j < snap.len()
        invariant
            i < snap.len(),
            j <= snap.len(),
            best is Some ==> best->0 < snap.len(),
            nearest_foe(snap@, i as int, j as int) == (
                match best {
                    Some(b) => Some(b as int),
                    None => None,
                },
                bd,
            ),
        decreases snap.len() - j,
    {
        if j != i && snap[j].1 != snap[i].1 {
            let d: F32 = snap[i].0.distance_squared(snap[j].0);
            if d.le(bd) {
                bd = d;
                best = Some(j);
            }
        }
        j = j + 1;
    }
    best
}

/// A unit is only ever struck by one of the other faction that is within reach.
pub proof fn law_strikes_foes_in_reach(snap: Seq<(Vec2, Faction)>, i: int, n: int)
    requires
        0 <= i < snap.len(),
        0 <= n <= snap.len(),
    ensures
        nearest_foe(snap, i, n).0 is Some ==> nearest_foe(snap, i, n).1.le_spec(reach_squared()),
        nearest_foe(snap, i, n).0 matches Some(j) ==> 0 <= j < n && j != i && snap[j].1
            != snap[i].1 && nearest_foe(snap, i, n).1 == snap[i].0.distance_squared_spec(
            snap[j].0,
        ),
    decreases n,
{
    if n > 0 {
        law_strikes_foes_in_reach(snap, i, n - 1);
        let (best, bd) = nearest_foe(snap, i, n - 1);
        let d = snap[i].0.distance_squared_spec(snap[n - 1].0);
        if best is Some {
            if d.le_spec(bd) {
                crate::float::lemma_le_transitive(d, bd, reach_squared());
            }
        } else {
            lemma_nothing_found(snap, i, n - 1);
        }
    }
}

proof fn lemma_nothing_found(snap: Seq<(Vec2, Faction)>, i: int, n: int)
    requires
        nearest_foe(snap, i, n).0 is None,
    ensures
        nearest_foe(snap, i, n).1 == reach_squared(),
    decreases n,
{
    if n > 0 {
        lemma_nothing_found(snap, i, n - 1);
    }
}

/// Damage to a tile added up.
pub open spec fn added(list: Seq<(Coord, F32)>, t: Coord, dmg: F32, k: int) -> Seq<(Coord, F32)>
    decreases list.len() - k,
{
    if k < 0 || k >= list.len() {
        list.push((t, (F32 { bits: ZERO }).add_spec(dmg)))
    } else if list[k].0 == t {
        list.update(k, (t, list[k].1.add_spec(dmg)))
    } else {
        added(list, t, dmg, k + 1)
    }
}

fn add_damage(list: &mut Vec<(Coord, F32)>, t: Coord, dmg: F32)
    ensures
        final(list)@ == added(old(list)@, t, dmg, 0),
{
    let mut k: usize = 0;
    while k < list.len()
        invariant
            k <= list.len(),
            list@ == old(list)@,
            added(list@, t, dmg, k as int) == added(old(list)@, t, dmg, 0),
        decreases list.len() - k,
    {
        let (at, sum) = list[k];
        if at.0 == t.0 && at.1 == t.1 {
            assert(list@[k as int].0 == t);
            list[k] = (t, sum.add(dmg));
            return;
        }
        k = k + 1;
    }
    list.push((t, (F32 { bits: ZERO }).add(dmg)));
}

/// A round of fighting: which way the knights face, the damage dealt, and who is
/// busy fighting.
#[verifier::ext_equal]
pub struct Clash {
    pub entities: Seq<EntityView>,
    pub damage: Seq<F32>,
    pub acting: Seq<bool>,
    pub walls: Seq<(Coord, F32)>,
    pub huts: Seq<(Coord, F32)>,
}

pub open spec fn facing_to(entities: Seq<EntityView>, i: int, at: Vec2, from: Vec2) -> Seq<
    EntityView,
> {
    entities.update(
        i,
        EntityView { facing: dir_from_vec_spec(at.sub_spec(from)), ..entities[i] },
    )
}

/// The round after the first `n` units have had their go: a knight strikes the
/// nearest opponent in range, or hacks at an adjacent enemy wall, or at a hut.
pub open spec fn clash_spec(
    w: WorldView,
    before: Seq<EntityView>,
    sim: (i32, i32, i32, i32),
    dt: F32,
    n: int,
) -> Clash
    decreases n,
{
    let snap = snap_of(before);
    if n <= 0 {
        Clash {
            entities: before,
            damage: Seq::new(before.len(), |i: int| F32 { bits: ZERO }),
            acting: Seq::new(before.len(), |i: int| false),
            walls: Seq::empty(),
            huts: Seq::empty(),
        }
    } else {
        let c = clash_spec(w, before, sim, dt, n - 1);
        let i = n - 1;
        let pos = before[i].pos;
        let owner = owner_of_spec(before[i].faction);
        if before[i].job != Job::Knight || !in_sim_spec(sim, before[i].tile()) {
            c
        } else {
            match nearest_foe(snap, i, snap.len() as int).0 {
                Some(j) => Clash {
                    entities: facing_to(c.entities, i, before[j].pos, pos),
                    damage: c.damage.update(
                        j,
                        c.damage[j].add_spec(F32 { bits: ATTACK_DPS }.mul_spec(dt)),
                    ),
                    acting: c.acting.update(i, true),
                    ..c
                },
                None => match first_neighbor(before[i].tile(), 0, 4, foreign_wall(w, owner)) {
                    Some(t) => Clash {
                        entities: facing_to(c.entities, i, tile_center_spec(t), pos),
                        walls: added(c.walls, t, F32 { bits: WALL_DPS }.mul_spec(dt), 0),
                        acting: c.acting.update(i, true),
                        ..c
                    },
                    None => match first_neighbor(
                        before[i].tile(),
                        0,
                        4,
                        foreign_hut(w, owner),
                    ) {
                        Some(t) => Clash {
                            entities: facing_to(c.entities, i, tile_center_spec(t), pos),
                            huts: added(c.huts, t, F32 { bits: WALL_DPS }.mul_spec(dt), 0),
                            acting: c.acting.update(i, true),
                            ..c
                        },
                        None => c,
                    },
                },
            }
        }
    }
}

/// The damage of a round, and who is busy fighting.
pub struct Blows {
    pub damage: Vec<F32>,
    pub acting: Vec<bool>,
    pub walls: Vec<(Coord, F32)>,
    pub huts: Vec<(Coord, F32)>,
}

impl Blows {
    pub open spec fn clash(&self, entities: Seq<EntityView>) -> Clash {
        Clash {
            entities,
            damage: self.damage@,
            acting: self.acting@,
            walls: self.walls@,
            huts: self.huts@,
        }
    }
}

pub open spec fn copies<T>(n: nat, v: T) -> Seq<T> {
    Seq::new(n, |i: int| v)
}

/// Turn a unit towards a point.
fn turn_to(entities: &mut Vec<Entity>, i: usize, at: Vec2, from: Vec2)
    requires
        i < old(entities).len(),
    ensures
        final(entities).len() == old(entities).len(),
        units_of(final(entities)@) == facing_to(units_of(old(entities)@), i as int, at, from),
{
    let ghost before = units_of(entities@);
    entities[i].facing = dir_from_vec(at.sub(from));
    assert(units_of(entities@) =~= facing_to(before, i as int, at, from));
}

/// A round of fighting.
pub fn clash(
    world: &World,
    entities: &mut Vec<Entity>,
    snap: &Vec<(Vec2, Faction)>,
    sim: (i32, i32, i32, i32),
    dt: F32,
) -> (r: Blows)
    requires
        world.wf(),
        snap@ == snap_of(units_of(old(entities)@)),
    ensures
        r.clash(units_of(final(entities)@)) == clash_spec(
            world@,
            units_of(old(entities)@),
            sim,
            dt,
            old(entities).len() as int,
        ),
        final(entities).len() == old(entities).len(),
        r.damage.len() == old(entities).len(),
        r.acting.len() == old(entities).len(),
{
    let ghost before = units_of(entities@);
    let n: usize = entities.len();
    let mut damage: Vec<F32> = Vec::new();
    let mut acting: Vec<bool> = Vec::new();
    let mut k: usize = 0;
    while k < n
        invariant
            k <= n,
            damage@ =~= copies(k as nat, F32 { bits: ZERO }),
            acting@ =~= copies(k as nat, false),
        decreases n - k,
    {
        damage.push(F32 { bits: ZERO });
        acting.push(false);
        k = k + 1;
    }
    let mut blows: Blows = Blows { damage, acting, walls: Vec::new(), huts: Vec::new() };
    let mut i: usize = 0;
    proof {
        assert(blows.clash(units_of(entities@)) =~= clash_spec(world@, before, sim, dt, 0));
    }
    while i < n
        invariant
            world.wf(),
            i <= n,
            n == entities.len(),
            n == before.len(),
            n == snap.len(),
            snap@ == snap_of(before),
            blows.damage.len() == n,
            blows.acting.len() == n,
            blows.clash(units_of(entities@)) == clash_spec(world@, before, sim, dt, i as int),
            forall|k: int|
                0 <= k < n ==> (#[trigger] units_of(entities@)[k]).job == before[k].job
                    && units_of(entities@)[k].pos == before[k].pos,
        decreases n - i,
    {
        assert(units_of(entities@)[i as int].job == before[i as int].job);
        assert(snap@[i as int] == (before[i as int].pos, before[i as int].faction));
        if entities[i].job == Job::Knight && in_sim(sim, entities[i].tile()) {
            let (pos, faction) = snap[i];
            let tile: Coord = entities[i].tile();
            if let Some(j) = find_foe(snap, i) {
                assert(snap@[j as int].0 == before[j as int].pos);
                blows.damage[j] = blows.damage[j].add(F32 { bits: ATTACK_DPS }.mul(dt));
                blows.acting[i] = true;
                turn_to(entities, i, snap[j].0, pos);
            } else if let Some(t) = adjacent_enemy_wall(world, owner_of(faction), tile) {
                add_damage(&mut blows.walls, t, F32 { bits: WALL_DPS }.mul(dt));
                blows.acting[i] = true;
                turn_to(entities, i, tile_center(t), pos);
            } else if let Some(t) = adjacent_enemy_hut(world, owner_of(faction), tile) {
                add_damage(&mut blows.huts, t, F32 { bits: WALL_DPS }.mul(dt));
                blows.acting[i] = true;
                turn_to(entities, i, tile_center(t), pos);
            }
        }
        assert(blows.clash(units_of(entities@)) =~= clash_spec(world@, before, sim, dt, i + 1));
        i = i + 1;
    }
    blows
}

/// Everyone with the damage taken off.
pub open spec fn wounded(entities: Seq<EntityView>, damage: Seq<F32>) -> Seq<EntityView> {
    Seq::new(
        entities.len(),
        |i: int| EntityView { hp: entities[i].hp.sub_spec(damage[i]), ..entities[i] },
    )
}

pub fn wound(entities: &mut Vec<Entity>, damage: &Vec<F32>)
    requires
        old(entities).len() == damage.len(),
    ensures
        final(entities).len() == old(entities).len(),
        units_of(final(entities)@) == wounded(units_of(old(entities)@), damage@),
{
    let ghost before = units_of(entities@);
    let mut i: usize = 0;
    while i < entities.len()
        invariant
            i <= entities.len(),
            entities.len() == before.len(),
            entities.len() == damage.len(),
            forall|k: int|
                0 <= k < before.len() ==> #[trigger] units_of(entities@)[k] == if k < i {
                    wounded(before, damage@)[k]
                } else {
                    before[k]
                },
        decreases entities.len() - i,
    {
        let ghost prior = units_of(entities@);
        assert(prior[i as int] == before[i as int]);
        entities[i].hp = entities[i].hp.sub(damage[i]);
        assert forall|k: int| 0 <= k < before.len() implies #[trigger] units_of(entities@)[k]
            == if k < i + 1 {
            wounded(before, damage@)[k]
        } else {
            before[k]
        } by {
            assert(prior[k] == if k < i {
                wounded(before, damage@)[k]
            } else {
                before[k]
            });
            if k != i {
                assert(units_of(entities@)[k] == prior[k]);
            }
        }
        i = i + 1;
    }
    assert(units_of(entities@) =~= wounded(before, damage@));
}

/// The world after the first `n` walls have taken their damage.
pub open spec fn walls_hit(w: WorldView, walls: Seq<(Coord, F32)>, n: int) -> WorldView
    decreases n,
{
    if n <= 0 {
        w
    } else {
        walls_hit(w, walls, n - 1).damage_wall(
            (walls[n - 1].0).0,
            (walls[n - 1].0).1,
            walls[n - 1].1,
        )
    }
}

pub fn hit_walls(world: &mut World, walls: &Vec<(Coord, F32)>)
    requires
        old(world).wf(),
    ensures
        final(world).wf(),
        final(world)@ == walls_hit(old(world)@, walls@, walls@.len() as int),
{
    let mut i: usize = 0;
    while i < walls.len()
        invariant
            i <= walls.len(),
            world.wf(),
            world@ == walls_hit(old(world)@, walls@, i as int),
        decreases walls.len() - i,
    {
        let (t, dmg) = walls[i];
        let _fell: bool = world.damage_wall(t.0, t.1, dmg);
        i = i + 1;
    }
}

impl GameView {
    /// A hut of the player's under attack with farmers inside rallies the knights
    /// to save them; a razed one is lost with whoever is still inside.
    #[verifier::opaque]
    pub open spec fn hut_hit(self, t: Coord, dmg: F32) -> GameView {
        let hut = self.world.hut(t.0, t.1);
        let alarmed = if hut is Some && hut->0.owner == owner_of_spec(Faction::Player)
            && hut->0.occupants > 0 {
            GameView { rally_point: Some(tile_center_spec(t)), ..self }
        } else {
            self
        };
        let hit = GameView { world: self.world.damage_hut(t.0, t.1, dmg), ..alarmed };
        match self.world.hut_falls(t.0, t.1, dmg) {
            Some(h) => if h.owner == owner_of_spec(Faction::Player) {
                GameView {
                    units_lost: self.units_lost.wrapping_add(h.occupants as u32),
                    hut_tiles: without(self.hut_tiles, t),
                    ..hit
                }
            } else {
                GameView {
                    enemies_defeated: self.enemies_defeated.wrapping_add(h.occupants as u32),
                    hut_tiles: without(self.hut_tiles, t),
                    ..hit
                }
            },
            None => hit,
        }
    }

    pub open spec fn huts_hit(self, huts: Seq<(Coord, F32)>, n: int) -> GameView
        decreases n,
    {
        if n <= 0 {
            self
        } else {
            self.huts_hit(huts, n - 1).hut_hit(huts[n - 1].0, huts[n - 1].1)
        }
    }
}

impl Game {
    fn hit_hut(&mut self, t: Coord, dmg: F32)
        requires
            old(self).wf(),
        ensures
            final(self).wf(),
            final(self)@ == old(self)@.hut_hit(t, dmg),
    {
        proof {
            reveal(GameView::hut_hit);
        }
        if let Some(h) = self.world.hut(t.0, t.1) {
            if h.owner == owner_of(Faction::Player) && h.occupants > 0 {
                self.rally_point = Some(tile_center(t));
            }
        }
        if let Some(hut) = self.world.damage_hut(t.0, t.1, dmg) {
            // Razed with farmers still inside — they're lost with it.
            let trapped: u32 = hut.occupants as u32;
            if hut.owner == owner_of(Faction::Player) {
                self.units_lost = self.units_lost.wrapping_add(trapped);
            } else {
                self.enemies_defeated = self.enemies_defeated.wrapping_add(trapped);
            }
            self.hut_tiles = remove_tile(&self.hut_tiles, t);
        }
    }

    pub fn hit_huts(&mut self, huts: &Vec<(Coord, F32)>)
        requires
            old(self).wf(),
        ensures
            final(self).wf(),
            final(self)@ == old(self)@.huts_hit(huts@, huts@.len() as int),
    {
        let mut i: usize = 0;
        while i < huts.len()
            invariant
                i <= huts.len(),
                self.wf(),
                self@ == old(self)@.huts_hit(huts@, i as int),
            decreases huts.len() - i,
        {
            let (t, dmg) = huts[i];
            self.hit_hut(t, dmg);
            i = i + 1;
        }
    }
}

} // verus!
