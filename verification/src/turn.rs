//! One tick of the game, from the land that comes into view to the villages that
//! change hands.

use std::collections::HashMap;
use vstd::prelude::*;
use crate::battle::{clash, clash_spec, hit_walls, snap_of, walls_hit, wound, wounded, Blows, Clash};
use crate::behavior::{mine_uses, uses_of, Scene, SceneView, StepEvent, HUT_CAPACITY};
use crate::chunk::Resource;
use crate::float::F32;
use crate::game::{
    farmers_of, in_sim, in_sim_spec, remove_tile, swap_removed, without, Game, GameView, Sapling,
    WALL_MAX_HP,
};
use crate::grid::{contains, key, key_spec};
use crate::knight::{ai_spec, ai_step};
use crate::survey::{adjacent_walkable, adjacent_walkable_spec};
use crate::unit::{
    owner_of, owner_of_spec, Entity, EntityView, Faction, Job, MIN_FARMERS_TO_GROW, ZERO,
};
use crate::vec2::{tile_center, tile_center_spec, Coord, Vec2};

verus! {

broadcast use vstd::std_specs::hash::group_hash_axioms;

/// The longest step of time taken at once: a tenth of a second.
pub const MAX_STEP: u32 = 0x3dcc_cccd;

/// Huts are sturdier than walls — attackers need a good while to break in: 400.
pub const HUT_MAX_HP: u32 = 0x43c8_0000;

/// A hut lets its occupants back out once no enemy is within this range: 9 tiles.
pub const HUT_SAFE_RADIUS: u32 = 0x4110_0000;

/// How close a knight must get to the rally flag to count as "arrived" (which
/// then lifts the flag for the whole group): 2.5 tiles.
pub const RALLY_ARRIVE_RADIUS: u32 = 0x4020_0000;

/// What holds for everyone during one tick.
pub struct Turn {
    pub snap: Vec<(Vec2, Faction)>,
    pub saplings: Vec<Coord>,
    pub acting: Vec<bool>,
    pub player_under: bool,
    pub enemy_under: bool,
    pub sim: (i32, i32, i32, i32),
    pub dt: F32,
}

#[verifier::ext_equal]
pub struct TurnView {
    pub snap: Seq<(Vec2, Faction)>,
    pub saplings: Seq<Coord>,
    pub acting: Seq<bool>,
    pub player_under: bool,
    pub enemy_under: bool,
    pub sim: (i32, i32, i32, i32),
    pub dt: F32,
}

impl View for Turn {
    type V = TurnView;

    open spec fn view(&self) -> TurnView {
        TurnView {
            snap: self.snap@,
            saplings: self.saplings@,
            acting: self.acting@,
            player_under: self.player_under,
            enemy_under: self.enemy_under,
            sim: self.sim,
            dt: self.dt,
        }
    }
}

pub open spec fn plots(saplings: Seq<Sapling>) -> Seq<Coord> {
    Seq::new(saplings.len(), |i: int| saplings[i].tile)
}

/// How many of the first `n` units hold a claim on each mine.
pub open spec fn rosters(entities: Seq<EntityView>, n: int) -> Map<u64, u32>
    decreases n,
{
    if n <= 0 {
        Map::empty()
    } else {
        let before = rosters(entities, n - 1);
        match entities[n - 1].mine_target {
            Some(c) => before.insert(key_spec(c), uses_of(before, c).wrapping_add(1)),
            None => before,
        }
    }
}

/// The squares of two radii.
pub open spec fn safe_squared() -> F32 {
    (F32 { bits: HUT_SAFE_RADIUS }).mul_spec(F32 { bits: HUT_SAFE_RADIUS })
}

pub open spec fn arrive_squared() -> F32 {
    (F32 { bits: RALLY_ARRIVE_RADIUS }).mul_spec(F32 { bits: RALLY_ARRIVE_RADIUS })
}

/// A unit of another faction is near the point.
pub open spec fn in_danger(entities: Seq<EntityView>, at: Vec2, faction: Faction) -> bool {
    exists|i: int|
        0 <= i < entities.len() && (#[trigger] entities[i]).faction != faction
            && entities[i].pos.distance_squared_spec(at).le_spec(safe_squared())
}

/// A knight of the player's has reached the point.
pub open spec fn reached(entities: Seq<EntityView>, at: Vec2) -> bool {
    exists|i: int|
        0 <= i < entities.len() && (#[trigger] entities[i]).faction == Faction::Player
            && entities[i].job == Job::Knight && entities[i].pos.distance_squared_spec(at).le_spec(
            arrive_squared(),
        )
}

impl GameView {
    /// What a unit of the faction reasons over.
    pub open spec fn scene(self, turn: TurnView, faction: Faction) -> SceneView {
        match faction {
            Faction::Player => SceneView {
                world: self.world,
                snap: turn.snap,
                home: self.player_house_tiles,
                pref: self.gather_priority.preferred_spec(),
                rally: self.rally_point,
                huts: self.hut_tiles,
                hut_orders: self.hut_orders,
                caves: self.cave_tiles,
                saplings: turn.saplings,
            },
            Faction::Enemy => SceneView {
                world: self.world,
                snap: turn.snap,
                home: self.world.enemy_house_tiles,
                pref: None,
                rally: None,
                huts: self.hut_tiles,
                hut_orders: Seq::empty(),
                caves: self.cave_tiles,
                saplings: turn.saplings,
            },
        }
    }

    /// What a unit's step brings about.
    #[verifier::opaque]
    pub open spec fn happened(self, i: int, event: Option<StepEvent>) -> GameView {
        let owner = owner_of_spec(self.entities[i].faction);
        match event {
            None => self,
            Some(StepEvent::Harvest(t)) => {
                let cut = GameView { world: self.world.deplete_node(t.0, t.1), ..self };
                match self.world.node(t.0, t.1) {
                    Some(n) => match n.kind {
                        Resource::Wood => GameView { wood: self.wood.wrapping_add(1), ..cut },
                        Resource::Stone => GameView { stone: self.stone.wrapping_add(1), ..cut },
                    },
                    None => cut,
                }
            },
            Some(StepEvent::MineStone) => GameView { stone: self.stone.wrapping_add(1), ..self },
            Some(StepEvent::Plant(t)) => if self.world.is_open_grass(t.0, t.1) && !plots(
                self.saplings,
            ).contains(t) {
                GameView {
                    saplings: self.saplings.push(Sapling { tile: t, grow: F32 { bits: ZERO } }),
                    ..self
                }
            } else {
                self
            },
            Some(StepEvent::RaiseWall(t)) => GameView {
                world: self.world.set_wall(t.0, t.1, owner, F32 { bits: WALL_MAX_HP }),
                ..self
            },
            Some(StepEvent::Demolish(t)) => GameView {
                world: self.world.clear_node(t.0, t.1),
                ..self
            },
            Some(StepEvent::BuildHut(t)) => GameView {
                world: self.world.set_hut(t.0, t.1, owner, F32 { bits: HUT_MAX_HP }),
                hut_tiles: self.hut_tiles.push(t),
                hut_orders: without(self.hut_orders, t),
                ..self
            },
            Some(StepEvent::Hide(t)) => match self.world.hut(t.0, t.1) {
                Some(h) => if h.occupants < HUT_CAPACITY {
                    GameView {
                        world: self.world.with_occupants(t.0, t.1, (h.occupants + 1) as u8),
                        entities: self.entities.update(
                            i,
                            EntityView { sheltered: true, ..self.entities[i] },
                        ),
                        ..self
                    }
                } else {
                    self
                },
                None => self,
            },
        }
    }

    /// One unit's turn; the slain have none.
    #[verifier::opaque]
    pub open spec fn moved(self, uses: Map<u64, u32>, turn: TurnView, i: int) -> (
        GameView,
        Map<u64, u32>,
    ) {
        let e = self.entities[i];
        if !in_sim_spec(turn.sim, e.tile()) || e.slain() {
            (self, uses)
        } else {
            let under = match e.faction {
                Faction::Player => turn.player_under,
                Faction::Enemy => turn.enemy_under,
            };
            let step = ai_spec(
                self.scene(turn, e.faction),
                e,
                self.rng,
                uses,
                turn.acting[i],
                under,
                turn.dt,
            );
            (
                GameView {
                    entities: self.entities.update(i, step.e),
                    rng: step.rng,
                    ..self
                }.happened(i, step.event),
                step.uses,
            )
        }
    }

    /// The first `n` units have had their turn.
    pub open spec fn thought(self, uses: Map<u64, u32>, turn: TurnView, n: int) -> (
        GameView,
        Map<u64, u32>,
    )
        decreases n,
    {
        if n <= 0 {
            (self, uses)
        } else {
            let (g, u) = self.thought(uses, turn, n - 1);
            g.moved(u, turn, n - 1)
        }
    }

    /// The dead are tallied and removed, and so are farmers who ducked into huts,
    /// from the `i`-th unit on.
    pub open spec fn cleared_from(self, i: int) -> GameView
        decreases self.entities.len() - i,
    {
        if i < 0 || i >= self.entities.len() {
            self
        } else if self.entities[i].slain() {
            let rest = GameView { entities: swap_removed(self.entities, i), ..self };
            match self.entities[i].faction {
                Faction::Enemy => GameView {
                    enemies_defeated: self.enemies_defeated.wrapping_add(1),
                    ..rest
                }.cleared_from(i),
                Faction::Player => GameView {
                    units_lost: self.units_lost.wrapping_add(1),
                    ..rest
                }.cleared_from(i),
            }
        } else if self.entities[i].sheltered {
            GameView { entities: swap_removed(self.entities, i), ..self }.cleared_from(i)
        } else {
            self.cleared_from(i + 1)
        }
    }

    /// A hut that no enemy is near lets its occupants out.
    #[verifier::opaque]
    pub open spec fn opened(self, t: Coord) -> GameView {
        match self.world.hut(t.0, t.1) {
            None => self,
            Some(h) => {
                let faction = if h.owner == owner_of_spec(Faction::Player) {
                    Faction::Player
                } else {
                    Faction::Enemy
                };
                if h.occupants == 0 || in_danger(self.entities, tile_center_spec(t), faction) {
                    self
                } else {
                    let emptied = GameView {
                        world: self.world.with_occupants(t.0, t.1, 0),
                        ..self
                    };
                    match adjacent_walkable_spec(emptied.world, t.0, t.1) {
                        Some(door) => GameView {
                            entities: self.entities + Seq::new(
                                h.occupants as nat,
                                |k: int| EntityView::fresh(faction, Job::Farmer, door),
                            ),
                            ..emptied
                        },
                        None => emptied,
                    }
                }
            },
        }
    }

    pub open spec fn all_opened(self, huts: Seq<Coord>, n: int) -> GameView
        decreases n,
    {
        if n <= 0 {
            self
        } else {
            self.all_opened(huts, n - 1).opened(huts[n - 1])
        }
    }

    /// The flag is lifted once a knight has reached it.
    pub open spec fn rallied(self) -> GameView {
        if self.rally_point is Some && reached(self.entities, self.rally_point->0) {
            GameView { rally_point: None, ..self }
        } else {
            self
        }
    }

    /// The part of a tick before anyone strikes: land, births, trees.
    pub open spec fn prepared(self, dt: F32, sim: (i32, i32, i32, i32)) -> GameView {
        self.surveyed(sim).enemy_raised(dt).player_raised(dt).grown(dt)
    }

    /// The blows of a tick on people and walls.
    pub open spec fn struck(self, c: Clash) -> GameView {
        GameView {
            entities: wounded(c.entities, c.damage),
            world: walls_hit(self.world, c.walls, c.walls.len() as int),
            ..self
        }
    }

    /// The fighting of a tick.
    pub open spec fn fought(self, dt: F32, sim: (i32, i32, i32, i32)) -> GameView {
        let c = clash_spec(self.world, self.entities, sim, dt, self.entities.len() as int);
        self.struck(c).huts_hit(c.huts, c.huts.len() as int)
    }

    /// What holds for everyone during the tick.
    pub open spec fn turn(self, dt: F32, sim: (i32, i32, i32, i32)) -> TurnView {
        TurnView {
            snap: snap_of(self.entities),
            saplings: plots(self.saplings),
            acting: clash_spec(
                self.world,
                self.entities,
                sim,
                dt,
                self.entities.len() as int,
            ).acting,
            player_under: farmers_of(self.entities, Faction::Player) <= MIN_FARMERS_TO_GROW,
            enemy_under: farmers_of(self.entities, Faction::Enemy) <= MIN_FARMERS_TO_GROW,
            sim,
            dt,
        }
    }

    /// One tick.
    pub open spec fn updated(self, dt: F32, sim: (i32, i32, i32, i32)) -> GameView {
        let dt = dt.min_spec(F32 { bits: MAX_STEP });
        let ready = self.prepared(dt, sim);
        let n = ready.entities.len() as int;
        let (acted, _) = ready.fought(dt, sim).thought(
            rosters(ready.entities, n),
            ready.turn(dt, sim),
            n,
        );
        let alive = acted.cleared_from(0);
        alive.all_opened(alive.hut_tiles, alive.hut_tiles.len() as int).rallied().captured()
    }
}

fn tiles_of(saplings: &Vec<Sapling>) -> (r: Vec<Coord>)
    ensures
        r@ == plots(saplings@),
{
    let mut out: Vec<Coord> = Vec::new();
    let mut i: usize = 0;
    while i < saplings.len()
        invariant
            i <= saplings.len(),
            out@ == plots(saplings@).take(i as int),
        decreases saplings.len() - i,
    {
        out.push(saplings[i].tile);
        assert(plots(saplings@).take(i + 1) =~= plots(saplings@).take(i as int).push(
            saplings@[i as int].tile,
        ));
        i = i + 1;
    }
    assert(plots(saplings@).take(i as int) =~= plots(saplings@));
    out
}

impl Game {
    fn snapshot(&self) -> (r: Vec<(Vec2, Faction)>)
        ensures
            r@ == snap_of(self@.entities),
    {
        let mut out: Vec<(Vec2, Faction)> = Vec::new();
        let mut i: usize = 0;
        while i < self.entities.len()
            invariant
                i <= self.entities.len(),
                out@ == snap_of(self@.entities).take(i as int),
            decreases self.entities.len() - i,
        {
            out.push((self.entities[i].pos, self.entities[i].faction));
            assert(snap_of(self@.entities).take(i + 1) =~= snap_of(self@.entities).take(
                i as int,
            ).push((self.entities@[i as int].pos, self.entities@[i as int].faction)));
            i = i + 1;
        }
        assert(snap_of(self@.entities).take(i as int) =~= snap_of(self@.entities));
        out
    }

    /// How many farmers are already working each mine, so we can cap the crowd.
    fn count_claims(&self) -> (r: HashMap<u64, u32>)
        ensures
            r@ == rosters(self@.entities, self@.entities.len() as int),
    {
        let mut uses: HashMap<u64, u32> = HashMap::new();
        let mut i: usize = 0;
        while i < self.entities.len()
            invariant
                i <= self.entities.len(),
                uses@ == rosters(self@.entities, i as int),
            decreases self.entities.len() - i,
        {
            if let Some(c) = self.entities[i].mine_target {
                let n: u32 = mine_uses(&uses, c);
                uses.insert(key(c), n.wrapping_add(1));
            }
            i = i + 1;
        }
        uses
    }

    /// Apply what a unit's step brings about.
    fn apply(&mut self, i: usize, event: Option<StepEvent>)
        requires
            old(self).wf(),
            i < old(self).entities.len(),
        ensures
            final(self).wf(),
            final(self)@ == old(self)@.happened(i as int, event),
            final(self).entities.len() == old(self).entities.len(),
    {
        proof {
            reveal(GameView::happened);
        }
        let owner: u8 = owner_of(self.entities[i].faction);
        assert(self@.entities[i as int] == self.entities@[i as int]@);
        match event {
            Some(StepEvent::Harvest(t)) => {
                if let Some(kind) = self.world.deplete_node(t.0, t.1) {
                    match kind {
                        Resource::Wood => {
                            self.wood = self.wood.wrapping_add(1);
                        },
                        Resource::Stone => {
                            self.stone = self.stone.wrapping_add(1);
                        },
                    }
                }
            },
            Some(StepEvent::MineStone) => {
                self.stone = self.stone.wrapping_add(1);
            },
            Some(StepEvent::Plant(t)) => {
                if self.world.is_open_grass(t.0, t.1) && !contains(&tiles_of(&self.saplings), t) {
                    self.saplings.push(Sapling { tile: t, grow: F32 { bits: ZERO } });
                }
            },
            Some(StepEvent::RaiseWall(t)) => {
                self.world.set_wall(t.0, t.1, owner, F32 { bits: WALL_MAX_HP });
            },
            Some(StepEvent::Demolish(t)) => {
                self.world.clear_node(t.0, t.1);
            },
            Some(StepEvent::BuildHut(t)) => {
                self.world.set_hut(t.0, t.1, owner, F32 { bits: HUT_MAX_HP });
                self.hut_tiles.push(t);
                self.hut_orders = remove_tile(&self.hut_orders, t);
            },
            Some(StepEvent::Hide(t)) => {
                let has_room: bool = match self.world.hut(t.0, t.1) {
                    Some(h) => h.occupants < HUT_CAPACITY,
                    None => false,
                };
                if has_room && self.world.add_hut_occupant(t.0, t.1) {
                    let ghost before = self@.entities;
                    self.entities[i].sheltered = true;
                    assert(self@.entities =~= before.update(
                        i as int,
                        EntityView { sheltered: true, ..before[i as int] },
                    ));
                }
            },
            None => {},
        }
    }

    /// One unit's turn; the slain have none.
    fn act(&mut self, uses: &mut HashMap<u64, u32>, turn: &Turn, i: usize)
        requires
            old(self).wf(),
            i < old(self).entities.len(),
            i < turn.acting.len(),
        ensures
            final(self).wf(),
            (final(self)@, final(uses)@) == old(self)@.moved(old(uses)@, turn@, i as int),
            final(self).entities.len() == old(self).entities.len(),
    {
        proof {
            reveal(GameView::moved);
        }
        assert(self@.entities[i as int] == self.entities@[i as int]@);
        if !in_sim(turn.sim, self.entities[i].tile()) || self.entities[i].slain() {
            return;
        }
        let ghost before = self@;
        let event: Option<StepEvent> = match self.entities[i].faction {
            Faction::Player => {
                let scene: Scene = Scene {
                    world: &self.world,
                    snap: &turn.snap,
                    home: &self.player_house_tiles,
                    pref: self.gather_priority.preferred(),
                    rally: self.rally_point,
                    huts: &self.hut_tiles,
                    hut_orders: &self.hut_orders,
                    caves: &self.cave_tiles,
                    saplings: &turn.saplings,
                };
                assert(scene@ =~= before.scene(turn@, Faction::Player));
                ai_step(
                    &scene,
                    &mut self.entities[i],
                    &mut self.rng,
                    uses,
                    turn.acting[i],
                    turn.player_under,
                    turn.dt,
                )
            },
            Faction::Enemy => {
                let no_orders: Vec<Coord> = Vec::new();
                let scene: Scene = Scene {
                    world: &self.world,
                    snap: &turn.snap,
                    home: self.world.enemy_house_tiles(),
                    pref: None,
                    rally: None,
                    huts: &self.hut_tiles,
                    hut_orders: &no_orders,
                    caves: &self.cave_tiles,
                    saplings: &turn.saplings,
                };
                assert(scene@ =~= before.scene(turn@, Faction::Enemy));
                ai_step(
                    &scene,
                    &mut self.entities[i],
                    &mut self.rng,
                    uses,
                    turn.acting[i],
                    turn.enemy_under,
                    turn.dt,
                )
            },
        };
        proof {
            let stepped = GameView {
                entities: before.entities.update(i as int, self.entities@[i as int]@),
                rng: self.rng@,
                ..before
            };
            assert(self@.entities =~= stepped.entities);
            assert(self@ =~= stepped);
        }
        self.apply(i, event);
    }

    /// Remove the dead (tallying score) and any farmers who ducked into huts.
    pub fn clear_fallen(&mut self)
        requires
            old(self).wf(),
        ensures
            final(self).wf(),
            final(self)@ == old(self)@.cleared_from(0),
    {
        let ghost goal = self@.cleared_from(0);
        let mut i: usize = 0;
        while i < self.entities.len()
            invariant
                self.wf(),
                i <= self.entities.len(),
                self@.cleared_from(i as int) == goal,
            decreases self.entities.len() - i,
        {
            let ghost before = self@;
            assert(before.entities[i as int] == self.entities@[i as int]@);
            if self.entities[i].slain() {
                match self.entities[i].faction {
                    Faction::Enemy => {
                        self.enemies_defeated = self.enemies_defeated.wrapping_add(1);
                    },
                    Faction::Player => {
                        self.units_lost = self.units_lost.wrapping_add(1);
                    },
                }
                let _gone: Entity = self.entities.swap_remove(i);
                assert(self@.entities =~= swap_removed(before.entities, i as int));
            } else if self.entities[i].sheltered {
                let _gone: Entity = self.entities.swap_remove(i);
                assert(self@.entities =~= swap_removed(before.entities, i as int));
            } else {
                i = i + 1;
            }
        }
    }

    fn danger_near(&self, at: Vec2, faction: Faction) -> (r: bool)
        ensures
            r == in_danger(self@.entities, at, faction),
    {
        let r: F32 = F32 { bits: HUT_SAFE_RADIUS };
        let r2: F32 = r.mul(r);
        let mut i: usize = 0;
        while i < self.entities.len()
            invariant
                i <= self.entities.len(),
                r2 == safe_squared(),
                forall|k: int|
                    0 <= k < i && (#[trigger] self@.entities[k]).faction != faction
                        ==> !self@.entities[k].pos.distance_squared_spec(at).le_spec(
                        safe_squared(),
                    ),
            decreases self.entities.len() - i,
        {
            assert(self@.entities[i as int] == self.entities@[i as int]@);
            if self.entities[i].faction != faction && self.entities[i].pos.distance_squared(at).le(
                r2,
            ) {
                return true;
            }
            i = i + 1;
        }
        false
    }

    fn open_hut(&mut self, t: Coord)
        requires
            old(self).wf(),
        ensures
            final(self).wf(),
            final(self)@ == old(self)@.opened(t),
            final(self).hut_tiles@ == old(self).hut_tiles@,
    {
        proof {
            reveal(GameView::opened);
        }
        if let Some(h) = self.world.hut(t.0, t.1) {
            let faction: Faction = if h.owner == owner_of(Faction::Player) {
                Faction::Player
            } else {
                Faction::Enemy
            };
            if h.occupants == 0 || self.danger_near(tile_center(t), faction) {
                return;
            }
            let ghost before = self@.entities;
            let out: u8 = self.world.release_hut(t.0, t.1);
            if let Some(door) = adjacent_walkable(&self.world, t.0, t.1) {
                let ghost farmer = EntityView::fresh(faction, Job::Farmer, door);
                let ghost w = self@;
                let mut k: u8 = 0;
                while k < out
                    invariant
                        self.wf(),
                        k <= out,
                        self.hut_tiles@ == old(self).hut_tiles@,
                        farmer == EntityView::fresh(faction, Job::Farmer, door),
                        self@ =~= (GameView {
                            entities: before + Seq::new(k as nat, |j: int| farmer),
                            ..w
                        }),
                    decreases out - k,
                {
                    let ghost prior = self@.entities;
                    self.entities.push(Entity::new(faction, Job::Farmer, door));
                    assert(self@.entities =~= prior.push(farmer));
                    assert(self@.entities =~= before + Seq::new((k + 1) as nat, |j: int| farmer));
                    k = k + 1;
                }
                assert(self@.entities =~= before + Seq::new(
                    h.occupants as nat,
                    |j: int| EntityView::fresh(faction, Job::Farmer, door),
                ));
            }
        }
    }

    /// Let sheltering farmers back out of any hut the enemy has left alone.
    pub fn emerge_from_huts(&mut self)
        requires
            old(self).wf(),
        ensures
            final(self).wf(),
            final(self)@ == old(self)@.all_opened(
                old(self)@.hut_tiles,
                old(self)@.hut_tiles.len() as int,
            ),
    {
        let ghost huts = self@.hut_tiles;
        let mut i: usize = 0;
        while i < self.hut_tiles.len()
            invariant
                self.wf(),
                i <= self.hut_tiles.len(),
                self.hut_tiles@ == huts,
                self@ == old(self)@.all_opened(huts, i as int),
            decreases self.hut_tiles.len() - i,
        {
            let t: Coord = self.hut_tiles[i];
            self.open_hut(t);
            i = i + 1;
        }
    }

    /// Lift the rally flag once a knight has reached it, handing the group back
    /// to normal combat AI right where they're needed.
    pub fn clear_reached_rally(&mut self)
        requires
            old(self).wf(),
        ensures
            final(self).wf(),
            final(self)@ == old(self)@.rallied(),
    {
        if let Some(at) = self.rally_point {
            let r: F32 = F32 { bits: RALLY_ARRIVE_RADIUS };
            let r2: F32 = r.mul(r);
            let mut i: usize = 0;
            while i < self.entities.len()
                invariant
                    self.wf(),
                    self@ == old(self)@,
                    self.rally_point == Some(at),
                    i <= self.entities.len(),
                    r2 == arrive_squared(),
                    forall|k: int|
                        0 <= k < i && (#[trigger] self@.entities[k]).faction == Faction::Player
                            && self@.entities[k].job == Job::Knight
                            ==> !self@.entities[k].pos.distance_squared_spec(at).le_spec(
                            arrive_squared(),
                        ),
                decreases self.entities.len() - i,
            {
                assert(self@.entities[i as int] == self.entities@[i as int]@);
                if self.entities[i].faction == Faction::Player && self.entities[i].job
                    == Job::Knight && self.entities[i].pos.distance_squared(at).le(r2) {
                    self.rally_point = None;
                    return;
                }
                i = i + 1;
            }
        }
    }

    /// The part of a tick before anyone strikes.
    fn prepare(&mut self, dt: F32, sim: (i32, i32, i32, i32))
        requires
            old(self).wf(),
        ensures
            final(self).wf(),
            final(self)@ == old(self)@.prepared(dt, sim),
    {
        // Keep chunks generated around the simulated (on-screen) entities.
        self.ensure_around_entities(sim);
        self.handle_spawns(dt);
        self.grow_saplings(dt);
    }

    /// The fighting of a tick, and what holds for everyone in the rest of it.
    fn fight(&mut self, dt: F32, sim: (i32, i32, i32, i32)) -> (r: Turn)
        requires
            old(self).wf(),
        ensures
            final(self).wf(),
            final(self)@ == old(self)@.fought(dt, sim),
            final(self).entities.len() == old(self).entities.len(),
            r@ == old(self)@.turn(dt, sim),
            r.acting.len() == old(self).entities.len(),
    {
        let ghost ready = self@;
        let ghost n = self@.entities.len();
        let snap: Vec<(Vec2, Faction)> = self.snapshot();
        let saplings: Vec<Coord> = tiles_of(&self.saplings);
        // When a faction drops to the farmer floor, its knights fall back to
        // the village to become farmers again (and wall it up on the way).
        let player_under: bool = self.farmer_count(Faction::Player) <= MIN_FARMERS_TO_GROW;
        let enemy_under: bool = self.farmer_count(Faction::Enemy) <= MIN_FARMERS_TO_GROW;
        let blows: Blows = clash(&self.world, &mut self.entities, &snap, sim, dt);
        wound(&mut self.entities, &blows.damage);
        hit_walls(&mut self.world, &blows.walls);
        let ghost hit = self@;
        proof {
            let c = clash_spec(ready.world, ready.entities, sim, dt, n as int);
            assert(hit =~= (GameView {
                entities: wounded(c.entities, c.damage),
                world: walls_hit(ready.world, c.walls, c.walls.len() as int),
                ..ready
            }));
            lemma_hits_spare_units(hit, blows.huts@, blows.huts@.len() as int);
        }
        self.hit_huts(&blows.huts);
        assert(self@.entities.len() == n);
        let turn: Turn = Turn {
            snap,
            saplings,
            acting: blows.acting,
            player_under,
            enemy_under,
            sim,
            dt,
        };
        assert(turn@ =~= ready.turn(dt, sim));
        turn
    }

    /// Everyone's turn.
    fn think(&mut self, claims: HashMap<u64, u32>, turn: &Turn)
        requires
            old(self).wf(),
            turn.acting.len() == old(self).entities.len(),
        ensures
            final(self).wf(),
            final(self)@ == old(self)@.thought(
                claims@,
                turn@,
                old(self)@.entities.len() as int,
            ).0,
    {
        let mut uses: HashMap<u64, u32> = claims;
        let n: usize = self.entities.len();
        let mut i: usize = 0;
        while i < n
            invariant
                self.wf(),
                i <= n,
                n == self.entities.len(),
                n == turn.acting.len(),
                (self@, uses@) == old(self)@.thought(claims@, turn@, i as int),
            decreases n - i,
        {
            self.act(&mut uses, turn, i);
            i = i + 1;
        }
    }

    /// One tick of the game. Only units within `sim` are simulated.
    pub fn update(&mut self, dt: F32, sim: (i32, i32, i32, i32))
        requires
            old(self).wf(),
        ensures
            final(self).wf(),
            final(self)@ == old(self)@.updated(dt, sim),
    {
        let dt: F32 = dt.min(F32 { bits: MAX_STEP });
        self.prepare(dt, sim);
        let claims: HashMap<u64, u32> = self.count_claims();
        let turn: Turn = self.fight(dt, sim);
        self.think(claims, &turn);
        self.clear_fallen();
        self.emerge_from_huts();
        self.clear_reached_rally();
        self.resolve_captures();
    }
}

/// Blows to huts leave the units as they are.
pub proof fn lemma_hits_spare_units(g: GameView, huts: Seq<(Coord, F32)>, n: int)
    ensures
        g.huts_hit(huts, n).entities == g.entities,
    decreases n,
{
    reveal(GameView::hut_hit);
    if n > 0 {
        lemma_hits_spare_units(g, huts, n - 1);
    }
}

} // verus!
