//! The state of a game: the world, the stockpile, the people, and what the player
//! has ordered and built.

use vstd::prelude::*;
use crate::chunk::Resource;
use crate::float::F32;
use crate::grid::{near_any, near_any_spec, shift, shift_spec};
use crate::knight::{is_tree, tree_at};
use crate::rng::{range_next, range_value, Rng};
use crate::survey::{adjacent_walkable, adjacent_walkable_spec};
use crate::unit::{
    owner_of, owner_of_spec, spawn_interval, spawn_interval_spec, Entity, EntityView, Faction,
    GatherPriority, Job, Priority, MIN_FARMERS_TO_GROW, ZERO,
};
use crate::vec2::{tile_center, tile_center_spec, Coord, Vec2, ONE};
use crate::world::{scan, tiles_with, Layer, World, WorldView};

verus! {

pub const HOUSE_WOOD_COST: u32 = 8;

pub const HOUSE_STONE_COST: u32 = 8;

pub const BRIDGE_WOOD_COST: u32 = 3;

pub const MINE_STONE_COST: u32 = 12;

pub const WALL_WOOD_COST: u32 = 2;

pub const WALL_STONE_COST: u32 = 4;

/// A new house must be within this many tiles of one you already own.
pub const BUILD_NEAR_RADIUS: i32 = 5;

/// How far a bridge may stand from the last one of its span.
pub const BRIDGE_REACH: i32 = 2;

/// Walls are tough, so breaking one takes several seconds of hacking: 220.
pub const WALL_MAX_HP: u32 = 0x435c_0000;

/// Seconds a sown sapling takes to mature into a harvestable tree: 6.
pub const SAPLING_GROW_TIME: u32 = 0x40c0_0000;

/// What a tree that has just grown holds.
pub const SAPLING_YIELD: u32 = 5;

pub const ENEMY_CAP: usize = 16;

/// 9 seconds.
pub const ENEMY_SPAWN_INTERVAL: u32 = 0x4110_0000;

/// 7 seconds.
pub const PLAYER_SPAWN_INTERVAL: u32 = 0x40e0_0000;

pub const PLAYER_POP_MAX: usize = 40;

/// Tiles kept generated around live entities so AI/pathfinding have room.
pub const ENSURE_MARGIN: i32 = 40;

#[derive(Clone, Copy, PartialEq, Eq, Structural, Debug)]
pub enum BuildMode {
    House,
    Bridge,
    /// Build a mine (cave): a bottomless stone source farmers can work.
    Mine,
    /// Craft a defensive wall from wood + stone.
    Wall,
    /// Order a tree turned into a hut: an idle knight walks over and builds it.
    Hut,
    /// Left-click plants a rally flag: player knights drop everything (even a
    /// fight) and rush to it. The flag clears once they arrive.
    Rally,
}

/// A sown sapling growing toward a harvestable tree (`grow` runs 0 → 1).
#[derive(Clone, Copy, Debug)]
pub struct Sapling {
    pub tile: Coord,
    pub grow: F32,
}

/// Camera state persisted alongside the game.
#[derive(Clone, Copy, PartialEq, Eq, Structural, Debug)]
pub struct CamState {
    pub cx: F32,
    pub cy: F32,
    pub view_height: F32,
}

pub struct Game {
    pub world: World,
    pub entities: Vec<Entity>,
    pub wood: u32,
    pub stone: u32,
    pub build_mode: BuildMode,
    pub priority: Priority,
    pub gather_priority: GatherPriority,
    pub enemies_defeated: u32,
    pub units_lost: u32,
    /// Player-set waypoint knights rush to (overriding combat); cleared once
    /// they arrive. Also raised automatically when a village is lost.
    pub rally_point: Option<Vec2>,
    pub player_house_tiles: Vec<Coord>,
    /// Player-built mines (caves); farmers mine these for endless stone.
    pub cave_tiles: Vec<Coord>,
    /// Every hut tile in the world (both factions), for shelter lookup.
    pub hut_tiles: Vec<Coord>,
    /// Trees the player has ordered turned into huts, awaiting a free knight.
    pub hut_orders: Vec<Coord>,
    /// Saplings mid-growth.
    pub saplings: Vec<Sapling>,
    /// Bridges the player has placed (anchors for extending spans).
    pub player_bridges: Vec<Coord>,
    pub enemy_spawn_timer: F32,
    pub player_spawn_timer: F32,
    pub player_spawn_cycle: u32,
    pub enemy_spawn_cycle: u32,
    pub rng: Rng,
}

/// A game as plain data.
#[verifier::ext_equal]
pub struct GameView {
    pub world: WorldView,
    pub entities: Seq<EntityView>,
    pub wood: u32,
    pub stone: u32,
    pub build_mode: BuildMode,
    pub priority: Priority,
    pub gather_priority: GatherPriority,
    pub enemies_defeated: u32,
    pub units_lost: u32,
    pub rally_point: Option<Vec2>,
    pub player_house_tiles: Seq<Coord>,
    pub cave_tiles: Seq<Coord>,
    pub hut_tiles: Seq<Coord>,
    pub hut_orders: Seq<Coord>,
    pub saplings: Seq<Sapling>,
    pub player_bridges: Seq<Coord>,
    pub enemy_spawn_timer: F32,
    pub player_spawn_timer: F32,
    pub player_spawn_cycle: u32,
    pub enemy_spawn_cycle: u32,
    pub rng: u64,
}

pub open spec fn units_of(entities: Seq<Entity>) -> Seq<EntityView> {
    Seq::new(entities.len(), |i: int| entities[i]@)
}

impl View for Game {
    type V = GameView;

    open spec fn view(&self) -> GameView {
        GameView {
            world: self.world@,
            entities: units_of(self.entities@),
            wood: self.wood,
            stone: self.stone,
            build_mode: self.build_mode,
            priority: self.priority,
            gather_priority: self.gather_priority,
            enemies_defeated: self.enemies_defeated,
            units_lost: self.units_lost,
            rally_point: self.rally_point,
            player_house_tiles: self.player_house_tiles@,
            cave_tiles: self.cave_tiles@,
            hut_tiles: self.hut_tiles@,
            hut_orders: self.hut_orders@,
            saplings: self.saplings@,
            player_bridges: self.player_bridges@,
            enemy_spawn_timer: self.enemy_spawn_timer,
            player_spawn_timer: self.player_spawn_timer,
            player_spawn_cycle: self.player_spawn_cycle,
            enemy_spawn_cycle: self.enemy_spawn_cycle,
            rng: self.rng@,
        }
    }
}

/// How many units belong to a faction.
pub open spec fn headcount(entities: Seq<EntityView>, faction: Faction) -> nat
    decreases entities.len(),
{
    if entities.len() == 0 {
        0
    } else {
        headcount(entities.drop_last(), faction) + if entities.last().faction == faction {
            1nat
        } else {
            0nat
        }
    }
}

/// How many farmers a faction has.
pub open spec fn farmers_of(entities: Seq<EntityView>, faction: Faction) -> nat
    decreases entities.len(),
{
    if entities.len() == 0 {
        0
    } else {
        farmers_of(entities.drop_last(), faction) + if entities.last().faction == faction
            && entities.last().job == Job::Farmer {
            1nat
        } else {
            0nat
        }
    }
}

/// The tiles but for one.
pub open spec fn without(tiles: Seq<Coord>, t: Coord) -> Seq<Coord>
    decreases tiles.len(),
{
    if tiles.len() == 0 {
        Seq::empty()
    } else if tiles.last() == t {
        without(tiles.drop_last(), t)
    } else {
        without(tiles.drop_last(), t).push(tiles.last())
    }
}

pub fn remove_tile(tiles: &Vec<Coord>, t: Coord) -> (r: Vec<Coord>)
    ensures
        r@ == without(tiles@, t),
{
    let mut out: Vec<Coord> = Vec::new();
    let mut i: usize = 0;
    while i < tiles.len()
        invariant
            i <= tiles.len(),
            out@ == without(tiles@.take(i as int), t),
        decreases tiles.len() - i,
    {
        if tiles[i].0 != t.0 || tiles[i].1 != t.1 {
            out.push(tiles[i]);
        }
        assert(tiles@.take(i + 1).drop_last() =~= tiles@.take(i as int));
        i = i + 1;
    }
    assert(tiles@.take(i as int) =~= tiles@);
    out
}

/// A list with one entry taken out, and the last one moved into its place.
pub open spec fn swap_removed<T>(s: Seq<T>, i: int) -> Seq<T> {
    s.update(i, s.last()).drop_last()
}

impl GameView {
    pub open spec fn pop_cap(self) -> int {
        let cap = 6 + self.player_house_tiles.len() * 3;
        if cap < PLAYER_POP_MAX {
            cap as int
        } else {
            PLAYER_POP_MAX as int
        }
    }

    pub open spec fn near_player_house(self, x: i32, y: i32) -> bool {
        near_any_spec(self.player_house_tiles, (x, y), BUILD_NEAR_RADIUS as int)
    }

    pub open spec fn near_player_bridge(self, x: i32, y: i32) -> bool {
        near_any_spec(self.player_bridges, (x, y), BRIDGE_REACH as int)
    }

    /// What a left-click may do here, in the current mode.
    pub open spec fn can_build(self, x: i32, y: i32) -> bool {
        match self.build_mode {
            BuildMode::House => self.world.is_open_grass(x, y) && self.near_player_house(x, y)
                && self.wood >= HOUSE_WOOD_COST && self.stone >= HOUSE_STONE_COST,
            BuildMode::Bridge => self.world.is_open_water(x, y) && self.wood >= BRIDGE_WOOD_COST
                && (self.near_player_house(x, y) || self.near_player_bridge(x, y)),
            BuildMode::Mine => self.world.is_open_grass(x, y) && self.near_player_house(x, y)
                && self.stone >= MINE_STONE_COST,
            BuildMode::Wall => self.world.is_open_grass(x, y) && self.near_player_house(x, y)
                && self.wood >= WALL_WOOD_COST && self.stone >= WALL_STONE_COST,
            BuildMode::Hut => is_tree(self.world, (x, y)),
            BuildMode::Rally => true,
        }
    }

    pub open spec fn wood_cost(self) -> u32 {
        match self.build_mode {
            BuildMode::House => HOUSE_WOOD_COST,
            BuildMode::Bridge => BRIDGE_WOOD_COST,
            BuildMode::Wall => WALL_WOOD_COST,
            _ => 0,
        }
    }

    pub open spec fn stone_cost(self) -> u32 {
        match self.build_mode {
            BuildMode::House => HOUSE_STONE_COST,
            BuildMode::Mine => MINE_STONE_COST,
            BuildMode::Wall => WALL_STONE_COST,
            _ => 0,
        }
    }

    /// The flag already flies over the tile.
    pub open spec fn flagged(self, t: Coord) -> bool {
        self.rally_point is Some && self.rally_point->0.eq_spec(tile_center_spec(t))
    }

    /// The game after a left-click on a tile.
    pub open spec fn built(self, x: i32, y: i32) -> GameView {
        if !self.can_build(x, y) {
            self
        } else {
            let paid = GameView {
                wood: (self.wood - self.wood_cost()) as u32,
                stone: (self.stone - self.stone_cost()) as u32,
                ..self
            };
            match self.build_mode {
                BuildMode::House => GameView {
                    world: self.world.set_house(x, y, true),
                    player_house_tiles: self.player_house_tiles.push((x, y)),
                    ..paid
                },
                BuildMode::Bridge => GameView {
                    world: self.world.set_bridge(x, y, true),
                    player_bridges: self.player_bridges.push((x, y)),
                    ..paid
                },
                BuildMode::Mine => GameView {
                    world: self.world.set_cave(x, y, true),
                    cave_tiles: self.cave_tiles.push((x, y)),
                    ..paid
                },
                BuildMode::Wall => GameView {
                    world: self.world.set_wall(
                        x,
                        y,
                        owner_of_spec(Faction::Player),
                        F32 { bits: WALL_MAX_HP },
                    ),
                    ..paid
                },
                BuildMode::Hut => GameView {
                    hut_orders: match position_spec(self.hut_orders, (x, y), 0) {
                        Some(i) => self.hut_orders.remove(i),
                        None => self.hut_orders.push((x, y)),
                    },
                    ..paid
                },
                BuildMode::Rally => GameView {
                    rally_point: if self.flagged((x, y)) {
                        None
                    } else {
                        Some(tile_center_spec((x, y)))
                    },
                    ..paid
                },
            }
        }
    }

    // --- time passing ---------------------------------------------------------

    /// The smallest rectangle round the first `n` units that stand in `sim`.
    pub open spec fn bounds(self, sim: (i32, i32, i32, i32), n: int) -> Option<(i32, i32, i32, i32)>
        decreases n,
    {
        if n <= 0 {
            None
        } else {
            let before = self.bounds(sim, n - 1);
            let t = self.entities[n - 1].tile();
            if !in_sim_spec(sim, t) {
                before
            } else {
                match before {
                    None => Some((t.0, t.1, t.0, t.1)),
                    Some(b) => Some(
                        (
                            if t.0 < b.0 {
                                t.0
                            } else {
                                b.0
                            },
                            if t.1 < b.1 {
                                t.1
                            } else {
                                b.1
                            },
                            if t.0 > b.2 {
                                t.0
                            } else {
                                b.2
                            },
                            if t.1 > b.3 {
                                t.1
                            } else {
                                b.3
                            },
                        ),
                    ),
                }
            }
        }
    }

    /// Land generated around the units that are simulated.
    pub open spec fn surveyed(self, sim: (i32, i32, i32, i32)) -> GameView {
        match self.bounds(sim, self.entities.len() as int) {
            None => self,
            Some(b) => GameView {
                world: self.world.ensured_region(
                    shift_spec(b.0, -(ENSURE_MARGIN as int)),
                    shift_spec(b.1, -(ENSURE_MARGIN as int)),
                    shift_spec(b.2, ENSURE_MARGIN as int),
                    shift_spec(b.3, ENSURE_MARGIN as int),
                ),
                ..self
            },
        }
    }

    /// Saplings from the `i`-th on a little taller; one whose tile was taken is
    /// given up, and a mature one becomes a tree.
    pub open spec fn grown_from(self, i: int, step: F32) -> GameView
        decreases self.saplings.len() - i,
    {
        if i < 0 || i >= self.saplings.len() {
            self
        } else {
            let s = self.saplings[i];
            let grow = s.grow.add_spec(step);
            if !self.world.is_open_grass(s.tile.0, s.tile.1) {
                GameView { saplings: swap_removed(self.saplings, i), ..self }.grown_from(i, step)
            } else if (F32 { bits: ONE }).le_spec(grow) {
                GameView {
                    world: self.world.set_node(
                        s.tile.0,
                        s.tile.1,
                        Resource::Wood,
                        SAPLING_YIELD,
                    ),
                    saplings: swap_removed(self.saplings, i),
                    ..self
                }.grown_from(i, step)
            } else {
                GameView {
                    saplings: self.saplings.update(i, Sapling { tile: s.tile, grow }),
                    ..self
                }.grown_from(i + 1, step)
            }
        }
    }

    pub open spec fn grown(self, dt: F32) -> GameView {
        self.grown_from(0, dt.div_spec(F32 { bits: SAPLING_GROW_TIME }))
    }

    /// The enemy's turn at raising a unit.
    #[verifier::opaque]
    pub open spec fn enemy_raised(self, dt: F32) -> GameView {
        let timer = self.enemy_spawn_timer.sub_spec(dt);
        let farmers = farmers_of(self.entities, Faction::Enemy) as int;
        let houses = self.world.enemy_house_tiles;
        if !timer.le_spec(F32 { bits: ZERO }) {
            GameView { enemy_spawn_timer: timer, ..self }
        } else {
            let waiting = GameView {
                enemy_spawn_timer: spawn_interval_spec(
                    F32 { bits: ENEMY_SPAWN_INTERVAL },
                    farmers,
                ),
                ..self
            };
            if houses.len() > 0 && headcount(self.entities, Faction::Enemy) < ENEMY_CAP && farmers
                > MIN_FARMERS_TO_GROW {
                let drawn = GameView {
                    rng: range_next(self.rng, 0, pick_count(houses.len())),
                    ..waiting
                };
                let house = houses[range_value(self.rng, 0, pick_count(houses.len()))];
                match adjacent_walkable_spec(self.world, house.0, house.1) {
                    Some(t) => GameView {
                        enemy_spawn_cycle: self.enemy_spawn_cycle.wrapping_add(1),
                        entities: self.entities.push(
                            EntityView::fresh(
                                Faction::Enemy,
                                enemy_recruit(self.enemy_spawn_cycle),
                                t,
                            ),
                        ),
                        ..drawn
                    },
                    None => drawn,
                }
            } else {
                waiting
            }
        }
    }

    /// The player's turn at raising a unit.
    #[verifier::opaque]
    pub open spec fn player_raised(self, dt: F32) -> GameView {
        let timer = self.player_spawn_timer.sub_spec(dt);
        let farmers = farmers_of(self.entities, Faction::Player) as int;
        let houses = self.player_house_tiles;
        if !timer.le_spec(F32 { bits: ZERO }) {
            GameView { player_spawn_timer: timer, ..self }
        } else {
            let waiting = GameView {
                player_spawn_timer: spawn_interval_spec(
                    F32 { bits: PLAYER_SPAWN_INTERVAL },
                    farmers,
                ),
                ..self
            };
            if houses.len() > 0 && headcount(self.entities, Faction::Player) < self.pop_cap()
                && farmers > MIN_FARMERS_TO_GROW {
                let drawn = GameView {
                    rng: range_next(self.rng, 0, pick_count(houses.len())),
                    ..waiting
                };
                let house = houses[range_value(self.rng, 0, pick_count(houses.len()))];
                match adjacent_walkable_spec(self.world, house.0, house.1) {
                    Some(t) => GameView {
                        player_spawn_cycle: self.player_spawn_cycle.wrapping_add(1),
                        entities: self.entities.push(
                            EntityView::fresh(
                                Faction::Player,
                                player_recruit(self.priority, self.player_spawn_cycle),
                                t,
                            ),
                        ),
                        ..drawn
                    },
                    None => drawn,
                }
            } else {
                waiting
            }
        }
    }
}

/// How many houses a draw chooses from.
pub open spec fn pick_count(houses: nat) -> int {
    if houses > i32::MAX {
        i32::MAX as int
    } else {
        houses as int
    }
}

/// Two knights, then a farmer.
pub open spec fn enemy_recruit(cycle: u32) -> Job {
    if cycle % 3 == 2 {
        Job::Farmer
    } else {
        Job::Knight
    }
}

/// Agriculture favours farmers (2:1); Military favours knights (1:2). Both still
/// raise some of each.
pub open spec fn player_recruit(priority: Priority, cycle: u32) -> Job {
    match priority {
        Priority::Agriculture => if cycle % 3 == 2 {
            Job::Knight
        } else {
            Job::Farmer
        },
        Priority::Military => if cycle % 3 == 0 {
            Job::Farmer
        } else {
            Job::Knight
        },
    }
}

/// Only entities near the player's view are simulated — a distant, unwatched
/// corner of the map is frozen so huge populations don't tank the frame rate.
pub open spec fn in_sim_spec(sim: (i32, i32, i32, i32), t: Coord) -> bool {
    sim.0 <= t.0 <= sim.2 && sim.1 <= t.1 <= sim.3
}

pub fn in_sim(sim: (i32, i32, i32, i32), t: Coord) -> (r: bool)
    ensures
        r == in_sim_spec(sim, t),
{
    t.0 >= sim.0 && t.0 <= sim.2 && t.1 >= sim.1 && t.1 <= sim.3
}

fn draw(rng: &mut Rng, houses: usize) -> (r: usize)
    requires
        houses > 0,
    ensures
        final(rng)@ == range_next(old(rng)@, 0, pick_count(houses as nat)),
        r == range_value(old(rng)@, 0, pick_count(houses as nat)),
        r < houses,
{
    let count: i32 = if houses > i32::MAX as usize {
        i32::MAX
    } else {
        houses as i32
    };
    rng.range(0, count) as usize
}

/// Where a tile first comes up in a list, from place `i` on.
pub open spec fn position_spec(tiles: Seq<Coord>, t: Coord, i: int) -> Option<int>
    decreases tiles.len() - i,
{
    if i < 0 || i >= tiles.len() {
        None
    } else if tiles[i] == t {
        Some(i)
    } else {
        position_spec(tiles, t, i + 1)
    }
}

fn position(tiles: &Vec<Coord>, t: Coord) -> (r: Option<usize>)
    ensures
        match r {
            Some(i) => position_spec(tiles@, t, 0) == Some(i as int) && i < tiles.len(),
            None => position_spec(tiles@, t, 0) is None,
        },
{
    let mut i: usize = 0;
    while i < tiles.len()
        invariant
            i <= tiles.len(),
            position_spec(tiles@, t, i as int) == position_spec(tiles@, t, 0),
        decreases tiles.len() - i,
    {
        if tiles[i].0 == t.0 && tiles[i].1 == t.1 {
            assert(tiles@[i as int] == t);
            return Some(i);
        }
        i = i + 1;
    }
    None
}

impl Game {
    pub open spec fn wf(&self) -> bool {
        self.world.wf()
    }

    /// How many units the player has.
    pub fn population(&self) -> (r: usize)
        ensures
            r == headcount(self@.entities, Faction::Player),
            r <= self@.entities.len(),
    {
        self.count(Faction::Player)
    }

    pub fn enemy_count(&self) -> (r: usize)
        ensures
            r == headcount(self@.entities, Faction::Enemy),
            r <= self@.entities.len(),
    {
        self.count(Faction::Enemy)
    }

    fn count(&self, faction: Faction) -> (r: usize)
        ensures
            r == headcount(self@.entities, faction),
            r <= self@.entities.len(),
    {
        let mut n: usize = 0;
        let mut i: usize = 0;
        while i < self.entities.len()
            invariant
                n <= i <= self.entities.len(),
                n == headcount(self@.entities.take(i as int), faction),
            decreases self.entities.len() - i,
        {
            if self.entities[i].faction == faction {
                n = n + 1;
            }
            assert(self@.entities.take(i + 1).drop_last() =~= self@.entities.take(i as int));
            i = i + 1;
        }
        assert(self@.entities.take(i as int) =~= self@.entities);
        n
    }

    pub fn farmer_count(&self, faction: Faction) -> (r: usize)
        ensures
            r == farmers_of(self@.entities, faction),
            r <= self@.entities.len(),
    {
        let mut n: usize = 0;
        let mut i: usize = 0;
        while i < self.entities.len()
            invariant
                n <= i <= self.entities.len(),
                n == farmers_of(self@.entities.take(i as int), faction),
            decreases self.entities.len() - i,
        {
            if self.entities[i].faction == faction && self.entities[i].job == Job::Farmer {
                n = n + 1;
            }
            assert(self@.entities.take(i + 1).drop_last() =~= self@.entities.take(i as int));
            i = i + 1;
        }
        assert(self@.entities.take(i as int) =~= self@.entities);
        n
    }

    pub fn pop_cap(&self) -> (r: usize)
        ensures
            r == self@.pop_cap(),
    {
        let houses: usize = self.player_house_tiles.len();
        if houses >= PLAYER_POP_MAX {
            return PLAYER_POP_MAX;
        }
        let cap: usize = 6 + houses * 3;
        if cap < PLAYER_POP_MAX {
            cap
        } else {
            PLAYER_POP_MAX
        }
    }

    /// Can a house be placed at `(x, y)` — i.e. is it close enough to one the
    /// player already controls (their village or a house they built)?
    pub fn near_player_house(&self, x: i32, y: i32) -> (r: bool)
        ensures
            r == self@.near_player_house(x, y),
    {
        near_any(&self.player_house_tiles, (x, y), BUILD_NEAR_RADIUS)
    }

    /// Is there a bridge *you placed* within a couple of tiles, so a span can
    /// be extended? (Natural bridges don't count, so the chain starts at land.)
    pub fn near_player_bridge(&self, x: i32, y: i32) -> (r: bool)
        ensures
            r == self@.near_player_bridge(x, y),
    {
        near_any(&self.player_bridges, (x, y), BRIDGE_REACH)
    }

    /// Handle a left-click at a world position according to the build mode.
    pub fn try_build(&mut self, world_pos: Vec2) -> (r: bool)
        requires
            old(self).wf(),
        ensures
            final(self).wf(),
            r == old(self)@.can_build(world_pos.tile_spec().0, world_pos.tile_spec().1),
            final(self)@ == old(self)@.built(world_pos.tile_spec().0, world_pos.tile_spec().1),
    {
        let (x, y) = world_pos.tile();
        match self.build_mode {
            BuildMode::House => {
                if !self.world.is_open_grass(x, y) || !self.near_player_house(x, y) || self.wood
                    < HOUSE_WOOD_COST || self.stone < HOUSE_STONE_COST {
                    return false;
                }
                self.wood = self.wood - HOUSE_WOOD_COST;
                self.stone = self.stone - HOUSE_STONE_COST;
                self.world.set_house(x, y, true);
                self.player_house_tiles.push((x, y));
                true
            },
            BuildMode::Bridge => {
                // A span must start from your land (near a house); further
                // bridge tiles may extend from one you already placed. This way
                // a bridge network always traces back to a house.
                if !self.world.is_open_water(x, y) || self.wood < BRIDGE_WOOD_COST || !(
                self.near_player_house(x, y) || self.near_player_bridge(x, y)) {
                    return false;
                }
                self.wood = self.wood - BRIDGE_WOOD_COST;
                self.world.set_bridge(x, y, true);
                self.player_bridges.push((x, y));
                true
            },
            BuildMode::Mine => {
                // A mine is a cave dug into open ground near your village. It's a
                // bottomless stone source (but only a few farmers fit at once).
                if !self.world.is_open_grass(x, y) || !self.near_player_house(x, y) || self.stone
                    < MINE_STONE_COST {
                    return false;
                }
                self.stone = self.stone - MINE_STONE_COST;
                self.world.set_cave(x, y, true);
                self.cave_tiles.push((x, y));
                true
            },
            BuildMode::Wall => {
                // Craft a wall from wood + stone on open ground near your village.
                if !self.world.is_open_grass(x, y) || !self.near_player_house(x, y) || self.wood
                    < WALL_WOOD_COST || self.stone < WALL_STONE_COST {
                    return false;
                }
                self.wood = self.wood - WALL_WOOD_COST;
                self.stone = self.stone - WALL_STONE_COST;
                self.world.set_wall(x, y, owner_of(Faction::Player), F32 { bits: WALL_MAX_HP });
                true
            },
            BuildMode::Hut => {
                // Order a tree turned into a hut. A free knight builds it; clicking
                // the same tree again cancels the order.
                if !tree_at(&self.world, (x, y)) {
                    return false;
                }
                match position(&self.hut_orders, (x, y)) {
                    Some(i) => {
                        let _order: Coord = self.hut_orders.remove(i);
                    },
                    None => {
                        self.hut_orders.push((x, y));
                    },
                }
                true
            },
            BuildMode::Rally => {
                // Plant (or move) the rally flag. Clicking the flagged tile again
                // lifts it.
                let here: Vec2 = tile_center((x, y));
                let lift: bool = match self.rally_point {
                    Some(r) => r.eq_value(here),
                    None => false,
                };
                self.rally_point = if lift {
                    None
                } else {
                    Some(here)
                };
                true
            },
        }
    }

    /// Trees the player has ordered turned into huts, for rendering markers.
    pub fn hut_orders(&self) -> (r: &Vec<Coord>)
        ensures
            r@ == self@.hut_orders,
    {
        &self.hut_orders
    }

    /// Lift the rally flag; knights resume defending on their own.
    pub fn clear_rally(&mut self)
        ensures
            final(self)@ == (GameView { rally_point: None, ..old(self)@ }),
            old(self).wf() ==> final(self).wf(),
    {
        self.rally_point = None;
    }

    /// Saplings mid-growth, for rendering (grow runs 0 → 1).
    pub fn saplings_iter(&self) -> (r: &Vec<Sapling>)
        ensures
            r@ == self@.saplings,
    {
        &self.saplings
    }

    /// Rebuild the cached list of player-owned house tiles from the world.
    pub fn rescan_player_houses(&mut self)
        requires
            old(self).wf(),
        ensures
            final(self).wf(),
            final(self)@ == (GameView {
                player_house_tiles: tiles_with(
                    old(self)@.world.coords,
                    old(self)@.world.cells,
                    Layer::House,
                ),
                ..old(self)@
            }),
    {
        self.player_house_tiles = scan(self.world.chunks_iter(), Layer::House);
    }

    /// Generate land around the units that are simulated.
    pub fn ensure_around_entities(&mut self, sim: (i32, i32, i32, i32))
        requires
            old(self).wf(),
        ensures
            final(self).wf(),
            final(self)@ == old(self)@.surveyed(sim),
    {
        let mut found: Option<(i32, i32, i32, i32)> = None;
        let mut i: usize = 0;
        while i < self.entities.len()
            invariant
                i <= self.entities.len(),
                found == self@.bounds(sim, i as int),
            decreases self.entities.len() - i,
        {
            let t: Coord = self.entities[i].tile();
            // Only bother generating land around entities we're actually simulating.
            if in_sim(sim, t) {
                found = match found {
                    None => Some((t.0, t.1, t.0, t.1)),
                    Some(b) => Some(
                        (
                            if t.0 < b.0 {
                                t.0
                            } else {
                                b.0
                            },
                            if t.1 < b.1 {
                                t.1
                            } else {
                                b.1
                            },
                            if t.0 > b.2 {
                                t.0
                            } else {
                                b.2
                            },
                            if t.1 > b.3 {
                                t.1
                            } else {
                                b.3
                            },
                        ),
                    ),
                };
            }
            i = i + 1;
        }
        if let Some(b) = found {
            self.world.ensure_region(
                shift(b.0, -ENSURE_MARGIN),
                shift(b.1, -ENSURE_MARGIN),
                shift(b.2, ENSURE_MARGIN),
                shift(b.3, ENSURE_MARGIN),
            );
        }
    }

    /// Advance sown saplings; a mature one becomes a real tree (wood node).
    pub fn grow_saplings(&mut self, dt: F32)
        requires
            old(self).wf(),
        ensures
            final(self).wf(),
            final(self)@ == old(self)@.grown(dt),
    {
        let step: F32 = dt.div(F32 { bits: SAPLING_GROW_TIME });
        let ghost goal = self@.grown(dt);
        let mut i: usize = 0;
        while i < self.saplings.len()
            invariant
                self.wf(),
                i <= self.saplings.len(),
                self@.grown_from(i as int, step) == goal,
            decreases self.saplings.len() - i,
        {
            let ghost before = self@;
            let t: Coord = self.saplings[i].tile;
            let grow: F32 = self.saplings[i].grow.add(step);
            if !self.world.is_open_grass(t.0, t.1) {
                // Something took the tile (a build, or it was cleared) — abandon it.
                let _gone: Sapling = self.saplings.swap_remove(i);
                assert(self@.saplings =~= swap_removed(before.saplings, i as int));
                assert(self@ =~= (GameView {
                    saplings: swap_removed(before.saplings, i as int),
                    ..before
                }));
            } else if (F32 { bits: ONE }).le(grow) {
                self.world.set_node(t.0, t.1, Resource::Wood, SAPLING_YIELD);
                let _grown: Sapling = self.saplings.swap_remove(i);
                assert(self@.saplings =~= swap_removed(before.saplings, i as int));
                assert(self@ =~= (GameView {
                    world: before.world.set_node(t.0, t.1, Resource::Wood, SAPLING_YIELD),
                    saplings: swap_removed(before.saplings, i as int),
                    ..before
                }));
            } else {
                self.saplings[i] = Sapling { tile: t, grow };
                assert(self@ =~= (GameView {
                    saplings: before.saplings.update(i as int, Sapling { tile: t, grow }),
                    ..before
                }));
                i = i + 1;
            }
        }
    }

    /// Raise new units at the houses, when it is time to.
    pub fn handle_spawns(&mut self, dt: F32)
        requires
            old(self).wf(),
        ensures
            final(self).wf(),
            final(self)@ == old(self)@.enemy_raised(dt).player_raised(dt),
    {
        self.raise_enemy(dt);
        self.raise_player(dt);
    }

    fn raise_enemy(&mut self, dt: F32)
        requires
            old(self).wf(),
        ensures
            final(self).wf(),
            final(self)@ == old(self)@.enemy_raised(dt),
    {
        proof {
            reveal(GameView::enemy_raised);
        }
        let timer: F32 = self.enemy_spawn_timer.sub(dt);
        self.enemy_spawn_timer = timer;
        if !timer.le(F32 { bits: ZERO }) {
            return;
        }
        let farmers: usize = self.farmer_count(Faction::Enemy);
        self.enemy_spawn_timer = spawn_interval(F32 { bits: ENEMY_SPAWN_INTERVAL }, farmers);
        let houses: usize = self.world.enemy_house_tiles().len();
        if houses > 0 && self.enemy_count() < ENEMY_CAP && farmers > MIN_FARMERS_TO_GROW {
            let pick: usize = draw(&mut self.rng, houses);
            let (hx, hy) = self.world.enemy_house_tiles()[pick];
            if let Some(t) = adjacent_walkable(&self.world, hx, hy) {
                let job: Job = if self.enemy_spawn_cycle % 3 == 2 {
                    Job::Farmer
                } else {
                    Job::Knight
                };
                self.enemy_spawn_cycle = self.enemy_spawn_cycle.wrapping_add(1);
                let ghost before = self@.entities;
                self.entities.push(Entity::new(Faction::Enemy, job, t));
                assert(self@.entities =~= before.push(EntityView::fresh(Faction::Enemy, job, t)));
            }
        }
    }

    fn raise_player(&mut self, dt: F32)
        requires
            old(self).wf(),
        ensures
            final(self).wf(),
            final(self)@ == old(self)@.player_raised(dt),
    {
        proof {
            reveal(GameView::player_raised);
        }
        let timer: F32 = self.player_spawn_timer.sub(dt);
        self.player_spawn_timer = timer;
        if !timer.le(F32 { bits: ZERO }) {
            return;
        }
        let farmers: usize = self.farmer_count(Faction::Player);
        self.player_spawn_timer = spawn_interval(F32 { bits: PLAYER_SPAWN_INTERVAL }, farmers);
        let houses: usize = self.player_house_tiles.len();
        if houses > 0 && self.population() < self.pop_cap() && farmers > MIN_FARMERS_TO_GROW {
            let pick: usize = draw(&mut self.rng, houses);
            let (hx, hy) = self.player_house_tiles[pick];
            if let Some(t) = adjacent_walkable(&self.world, hx, hy) {
                let c: u32 = self.player_spawn_cycle % 3;
                let job: Job = match self.priority {
                    Priority::Agriculture => if c == 2 {
                        Job::Knight
                    } else {
                        Job::Farmer
                    },
                    Priority::Military => if c == 0 {
                        Job::Farmer
                    } else {
                        Job::Knight
                    },
                };
                self.player_spawn_cycle = self.player_spawn_cycle.wrapping_add(1);
                let ghost before = self@.entities;
                self.entities.push(Entity::new(Faction::Player, job, t));
                assert(self@.entities =~= before.push(EntityView::fresh(Faction::Player, job, t)));
            }
        }
    }
}

} // verus!
