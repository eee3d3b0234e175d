//! How a game begins: one village near the origin, and the enemy's scattered
//! around it.

use vstd::prelude::*;
use crate::chunk::NO_OWNER;
use crate::float::{from_int_spec, F32};
use crate::game::{
    units_of, BuildMode, Game, GameView, ENEMY_SPAWN_INTERVAL, ENSURE_MARGIN, PLAYER_SPAWN_INTERVAL,
};
use crate::grid::{
    near_any, near_any_spec, offset, offset_spec, shift, shift_spec, within, within_spec,
};
use crate::pathfind::{decides, walks};
use crate::rng::{range_next, range_value, Rng};
use crate::survey::{
    adjacent_walkable, adjacent_walkable_spec, anything, find_land_anchor, land_anchor_spec,
    land_region, nearest_house, nearest_spec, nearest_where, open_grass, open_tiles_near, square,
    whole_square,
};
use crate::unit::{Entity, EntityView, Faction, GatherPriority, Job, Priority, ZERO};
use crate::vec2::Coord;
use crate::world::{tiles_with, Layer, World, WorldView};

verus! {

/// How many enemy villages to scatter around the map at world creation.
pub const ENEMY_VILLAGES: usize = 4;

/// How many spots to try for them: along each bearing in turn, then farther out.
pub const CAMP_TRIES: u32 = 48;

/// Houses of an enemy village.
pub const CAMP_HOUSES: usize = 4;

/// How far around a spot to look for land for an enemy village.
pub const CAMP_SEARCH: i32 = 16;

/// How far the middle of a new enemy village keeps from the houses of the others. Its
/// own houses lie up to three tiles from it, so none comes close to another village.
pub const CAMP_CLEARANCE: i32 = 11;

/// How far from the origin an enemy village may lie, along either axis.
pub const CAMP_RANGE: i32 = 1000;

pub const STARTING_STOCK: u32 = 20;

pub const CAMP_SALT: u64 = 0xA24B_AED4_963E_E407;

pub const GAME_SALT: u64 = 0xD1B5_4A32_D192_ED03;

/// A float as the integer next to it toward zero.
pub open spec fn toward_zero_spec(v: F32) -> i32 {
    if v.lt_spec(F32 { bits: ZERO }) {
        v.ceil_spec()
    } else {
        v.floor_spec()
    }
}

fn toward_zero(v: F32) -> (r: i32)
    ensures
        r == toward_zero_spec(v),
{
    if v.lt(F32 { bits: ZERO }) {
        v.ceil()
    } else {
        v.floor()
    }
}

/// Where the houses of the first village go, from its anchor.
pub open spec fn plot_spec(k: int) -> (int, int) {
    if k == 0 {
        (0, 0)
    } else if k == 1 {
        (3, 0)
    } else if k == 2 {
        (0, 3)
    } else if k == 3 {
        (3, 3)
    } else {
        (-3, 2)
    }
}

fn plot(k: u32) -> (r: (i32, i32))
    ensures
        r.0 == plot_spec(k as int).0,
        r.1 == plot_spec(k as int).1,
{
    if k == 0 {
        (0, 0)
    } else if k == 1 {
        (3, 0)
    } else if k == 2 {
        (0, 3)
    } else if k == 3 {
        (3, 3)
    } else {
        (-3, 2)
    }
}

/// The first `k` plots built on where they are open grass.
pub open spec fn settled(w: WorldView, anchor: Coord, k: int) -> (WorldView, Seq<Coord>)
    decreases k,
{
    if k <= 0 {
        (w, Seq::empty())
    } else {
        let (before, houses) = settled(w, anchor, k - 1);
        match offset_spec(anchor, plot_spec(k - 1).0, plot_spec(k - 1).1) {
            Some(t) => if before.is_open_grass(t.0, t.1) {
                (before.set_house(t.0, t.1, true), houses.push(t))
            } else {
                (before, houses)
            },
            None => (before, houses),
        }
    }
}

/// Four farmers, then knights.
pub open spec fn roster_job(k: int) -> Job {
    if k < 4 {
        Job::Farmer
    } else {
        Job::Knight
    }
}

/// The first `k` villagers, on every third tile.
pub open spec fn villagers(spots: Seq<Coord>, k: int) -> Seq<EntityView>
    decreases k,
{
    if k <= 0 {
        Seq::empty()
    } else {
        let before = villagers(spots, k - 1);
        if 3 * (k - 1) < spots.len() {
            before.push(EntityView::fresh(Faction::Player, roster_job(k - 1), spots[3 * (k - 1)]))
        } else {
            before
        }
    }
}

/// The ways in which enemy villages lie.
pub open spec fn bearing_spec(k: int) -> (u32, u32) {
    if k == 0 {
        // 1.0, 0.2
        (0x3f80_0000, 0x3e4c_cccd)
    } else if k == 1 {
        // -0.9, 0.4
        (0xbf66_6666, 0x3ecc_cccd)
    } else if k == 2 {
        // 0.3, 1.0
        (0x3e99_999a, 0x3f80_0000)
    } else if k == 3 {
        // -0.4, -1.0
        (0xbecc_cccd, 0xbf80_0000)
    } else if k == 4 {
        // 0.95, -0.7
        (0x3f73_3333, 0xbf33_3333)
    } else {
        // -1.0, -0.25
        (0xbf80_0000, 0xbe80_0000)
    }
}

fn bearing(k: u32) -> (r: (u32, u32))
    ensures
        r == bearing_spec(k as int),
{
    if k == 0 {
        (0x3f80_0000, 0x3e4c_cccd)
    } else if k == 1 {
        (0xbf66_6666, 0x3ecc_cccd)
    } else if k == 2 {
        (0x3e99_999a, 0x3f80_0000)
    } else if k == 3 {
        (0xbecc_cccd, 0xbf80_0000)
    } else if k == 4 {
        (0x3f73_3333, 0xbf33_3333)
    } else {
        (0xbf80_0000, 0xbe80_0000)
    }
}

/// Tiles clear of the enemy's houses, not too far out.
pub open spec fn clear_site(houses: Seq<Coord>) -> spec_fn(Coord) -> bool {
    |t: Coord|
        within_spec(t, (0, 0), CAMP_RANGE as int) && !near_any_spec(
            houses,
            t,
            CAMP_CLEARANCE as int,
        )
}

/// Where a village near a point goes: on the nearest open grass; where that is not
/// clear of the others, on the nearest that is.
pub open spec fn camp_site_spec(w: WorldView, near: Coord) -> Option<Coord> {
    let clear = clear_site(w.enemy_house_tiles);
    match land_anchor_spec(w, near, CAMP_SEARCH as int) {
        None => None,
        Some(t) => if clear(t) {
            Some(t)
        } else {
            nearest_spec(whole_square(near, CAMP_SEARCH as int, open_grass(w)), near, clear)
        },
    }
}

fn find_camp_site(world: &mut World, near: Coord) -> (t: Option<Coord>)
    requires
        old(world).wf(),
    ensures
        final(world).wf(),
        final(world)@ == land_region(old(world)@, near, CAMP_SEARCH as int),
        t == camp_site_spec(final(world)@, near),
{
    let anchor: Coord = match find_land_anchor(world, near, CAMP_SEARCH) {
        None => {
            return None;
        },
        Some(t) => t,
    };
    let land: &World = &*world;
    let houses: &Vec<Coord> = land.enemy_house_tiles();
    if within(anchor, (0, 0), CAMP_RANGE) && !near_any(houses, anchor, CAMP_CLEARANCE) {
        return Some(anchor);
    }
    let will_do = |x: i32, y: i32| -> (b: bool)
        requires
            land.wf(),
        ensures
            b == land@.is_open_grass(x, y),
        { land.is_open_grass(x, y) };
    assert(decides(will_do, open_grass(land@)));
    let tiles: Vec<Coord> = square(near, CAMP_SEARCH, will_do);
    let clear = |x: i32, y: i32| -> (b: bool)
        ensures
            b == clear_site(houses@)((x, y)),
        { within((x, y), (0, 0), CAMP_RANGE) && !near_any(houses, (x, y), CAMP_CLEARANCE) };
    assert(decides(clear, clear_site(land@.enemy_house_tiles)));
    nearest_where(&tiles, near, clear)
}

/// The enemy's settlements while they are being founded.
#[verifier::ext_equal]
pub struct Camps {
    pub world: WorldView,
    pub entities: Seq<EntityView>,
    pub villages: int,
    pub rng: u64,
}

/// The first `k` of a village's units, each beside one of its houses.
pub open spec fn garrison(w: WorldView, houses: Seq<Coord>, k: int) -> Seq<EntityView>
    decreases k,
{
    if k <= 0 {
        Seq::empty()
    } else {
        let before = garrison(w, houses, k - 1);
        let h = houses[(k - 1) % houses.len() as int];
        match adjacent_walkable_spec(w, h.0, h.1) {
            Some(t) => before.push(EntityView::fresh(Faction::Enemy, roster_job(k - 1), t)),
            None => before,
        }
    }
}

/// Where a village is to lie: 55 to 90 tiles out along its bearing, give or take
/// a few; 35 more for every time that all bearings were tried.
pub open spec fn camp_target(rng: u64, k: int) -> Coord {
    let dist = from_int_spec(55 + 35 * (k / 6) + range_value(rng, 0, 35));
    let first = range_next(rng, 0, 35);
    let second = range_next(first, -8, 9);
    (
        toward_zero_spec(F32 { bits: bearing_spec(k % 6).0 }.mul_spec(dist)).wrapping_add(
            range_value(first, -8, 9) as i32,
        ),
        toward_zero_spec(F32 { bits: bearing_spec(k % 6).1 }.mul_spec(dist)).wrapping_add(
            range_value(second, -8, 9) as i32,
        ),
    )
}

pub open spec fn camp_rng(rng: u64) -> u64 {
    range_next(range_next(range_next(rng, 0, 35), -8, 9), -8, 9)
}

/// The x of the easternmost house; never less than the nearest that a village lies.
pub open spec fn eastmost_spec(houses: Seq<Coord>) -> i32
    decreases houses.len(),
{
    if houses.len() == 0 {
        55
    } else {
        let rest = eastmost_spec(houses.drop_last());
        if houses.last().0 > rest {
            houses.last().0
        } else {
            rest
        }
    }
}

fn eastmost(houses: &Vec<Coord>) -> (r: i32)
    ensures
        r == eastmost_spec(houses@),
{
    let mut r: i32 = 55;
    let mut i: usize = 0;
    while i < houses.len()
        invariant
            i <= houses.len(),
            r == eastmost_spec(houses@.take(i as int)),
        decreases houses.len() - i,
    {
        assert(houses@.take(i + 1).drop_last() =~= houses@.take(i as int));
        if houses[i].0 > r {
            r = houses[i].0;
        }
        i = i + 1;
    }
    assert(houses@.take(i as int) =~= houses@);
    r
}

/// Where a village goes for which no land was found: east of all others.
pub open spec fn new_ground(houses: Seq<Coord>) -> Coord {
    (shift_spec(eastmost_spec(houses), CAMP_CLEARANCE + 1), 0)
}

/// Side of the ground raised for such a village.
pub const PATCH: i32 = 9;

/// The first `k` tiles of the ground raised around the middle of a village.
pub open spec fn patched(w: WorldView, center: Coord, k: int) -> WorldView
    decreases k,
{
    if k <= 0 {
        w
    } else {
        let before = patched(w, center, k - 1);
        match offset_spec(center, (k - 1) % PATCH as int - 4, (k - 1) / PATCH as int - 4) {
            Some(t) => before.raise_land(t.0, t.1),
            None => before,
        }
    }
}

impl Camps {
    /// A village planted and manned around a tile.
    pub open spec fn peopled(self, anchor: Coord) -> Camps {
        let w = self.world.plant_camp(anchor, CAMP_HOUSES as int);
        let houses = w.enemy_house_tiles.skip(self.world.enemy_house_tiles.len() as int);
        if houses.len() == 0 {
            Camps { world: w, ..self }
        } else {
            Camps {
                world: w,
                entities: self.entities + garrison(w, houses, 6),
                villages: self.villages + 1,
                ..self
            }
        }
    }

    /// One more village, on ground raised for it.
    pub open spec fn with_new_ground(self) -> Camps {
        if self.villages >= ENEMY_VILLAGES {
            self
        } else {
            let t = new_ground(self.world.enemy_house_tiles);
            Camps { world: patched(self.world, t, PATCH * PATCH), ..self }.peopled(t)
        }
    }

    /// Up to `k` more villages, on ground raised for them.
    pub open spec fn filled(self, k: int) -> Camps
        decreases k,
    {
        if k <= 0 {
            self
        } else {
            self.filled(k - 1).with_new_ground()
        }
    }

    /// One more village, if land is found for it.
    pub open spec fn with_camp(self, k: int) -> Camps {
        if self.villages >= ENEMY_VILLAGES {
            self
        } else {
            let target = camp_target(self.rng, k);
            let land = Camps {
                world: land_region(self.world, target, CAMP_SEARCH as int),
                rng: camp_rng(self.rng),
                ..self
            };
            match camp_site_spec(land.world, target) {
                None => land,
                Some(anchor) => land.peopled(anchor),
            }
        }
    }

    /// The villages of the first `k` tries.
    pub open spec fn with_camps(self, k: int) -> Camps
        decreases k,
    {
        if k <= 0 {
            self
        } else {
            self.with_camps(k - 1).with_camp(k - 1)
        }
    }
}

/// The land a game starts on.
pub open spec fn first_land(seed: i32) -> WorldView {
    WorldView {
        seed,
        coords: Seq::empty(),
        cells: Seq::empty(),
        enemy_house_tiles: Seq::empty(),
    }.ensured_region(
        (-ENSURE_MARGIN) as i32,
        (-ENSURE_MARGIN) as i32,
        ENSURE_MARGIN,
        ENSURE_MARGIN,
    )
}

/// The walkable tile nearest the origin.
pub open spec fn first_anchor(w: WorldView) -> Coord {
    match nearest_spec(whole_square((0, 0), 24, walks(w, NO_OWNER)), (0, 0), anything()) {
        Some(t) => t,
        None => (0, 0),
    }
}

impl GameView {
    /// The game that a seed starts.
    pub open spec fn founded(seed: i32) -> GameView {
        let land = first_land(seed);
        let anchor = first_anchor(land);
        let (world, houses) = settled(land, anchor, 5);
        let camps = Camps {
            world,
            entities: villagers(whole_square(anchor, 8, walks(world, NO_OWNER)), 6),
            villages: 0,
            rng: ((seed as u64) ^ CAMP_SALT) | 1,
        }.with_camps(CAMP_TRIES as int).filled(ENEMY_VILLAGES as int);
        GameView {
            world: camps.world,
            entities: camps.entities,
            wood: STARTING_STOCK,
            stone: STARTING_STOCK,
            build_mode: BuildMode::House,
            priority: Priority::Agriculture,
            gather_priority: GatherPriority::Balanced,
            enemies_defeated: 0,
            units_lost: 0,
            rally_point: None,
            player_house_tiles: houses,
            cave_tiles: Seq::empty(),
            hut_tiles: tiles_with(camps.world.coords, camps.world.cells, Layer::Hut),
            hut_orders: Seq::empty(),
            saplings: Seq::empty(),
            player_bridges: Seq::empty(),
            enemy_spawn_timer: F32 { bits: ENEMY_SPAWN_INTERVAL },
            player_spawn_timer: F32 { bits: PLAYER_SPAWN_INTERVAL },
            player_spawn_cycle: 0,
            enemy_spawn_cycle: 0,
            rng: ((seed as u64) ^ GAME_SALT) | 1,
        }
    }
}

fn settle_first(world: &mut World, anchor: Coord) -> (r: Vec<Coord>)
    requires
        old(world).wf(),
    ensures
        final(world).wf(),
        (final(world)@, r@) == settled(old(world)@, anchor, 5),
{
    let mut houses: Vec<Coord> = Vec::new();
    let mut k: u32 = 0;
    while k < 5
        invariant
            k <= 5,
            world.wf(),
            (world@, houses@) == settled(old(world)@, anchor, k as int),
        decreases 5 - k,
    {
        let d: (i32, i32) = plot(k);
        if let Some(t) = offset(anchor, d.0, d.1) {
            if world.is_open_grass(t.0, t.1) {
                world.set_house(t.0, t.1, true);
                houses.push(t);
            }
        }
        k = k + 1;
    }
    houses
}

/// Villagers: farmers to gather, knights to defend.
fn first_villagers(spots: &Vec<Coord>) -> (r: Vec<Entity>)
    ensures
        units_of(r@) == villagers(spots@, 6),
{
    let mut out: Vec<Entity> = Vec::new();
    let mut k: usize = 0;
    assert(units_of(out@) =~= Seq::empty());
    while k < 6
        invariant
            k <= 6,
            units_of(out@) == villagers(spots@, k as int),
        decreases 6 - k,
    {
        let ghost before = units_of(out@);
        if 3 * k < spots.len() {
            let job: Job = if k < 4 {
                Job::Farmer
            } else {
                Job::Knight
            };
            out.push(Entity::new(Faction::Player, job, spots[3 * k]));
            assert(units_of(out@) =~= before.push(
                EntityView::fresh(Faction::Player, job, spots@[3 * k as int]),
            ));
        }
        k = k + 1;
    }
    out
}

/// Man the houses of a new enemy village: farmers (more than three, so it can
/// grow) and knights.
fn man_camp(world: &World, first: usize, entities: &mut Vec<Entity>)
    requires
        world.wf(),
        first < world@.enemy_house_tiles.len(),
    ensures
        units_of(final(entities)@) == units_of(old(entities)@) + garrison(
            world@,
            world@.enemy_house_tiles.skip(first as int),
            6,
        ),
{
    let ghost before = units_of(entities@);
    let tiles: &Vec<Coord> = world.enemy_house_tiles();
    let ghost houses = tiles@.skip(first as int);
    let count: usize = tiles.len() - first;
    let mut k: usize = 0;
    assert(before + garrison(world@, houses, 0) =~= before);
    while k < 6
        invariant
            k <= 6,
            world.wf(),
            tiles@ == world@.enemy_house_tiles,
            first < tiles.len(),
            count == tiles.len() - first,
            houses == tiles@.skip(first as int),
            units_of(entities@) == before + garrison(world@, houses, k as int),
        decreases 6 - k,
    {
        let ghost prior = units_of(entities@);
        let at: usize = k % count;
        let h: Coord = tiles[first + at];
        assert(h == houses[k as int % houses.len() as int]);
        if let Some(t) = adjacent_walkable(world, h.0, h.1) {
            let job: Job = if k < 4 {
                Job::Farmer
            } else {
                Job::Knight
            };
            entities.push(Entity::new(Faction::Enemy, job, t));
            assert(units_of(entities@) =~= prior.push(EntityView::fresh(Faction::Enemy, job, t)));
            assert(units_of(entities@) =~= before + garrison(world@, houses, k + 1));
        }
        k = k + 1;
    }
}

/// Raise ground around the middle of a village.
fn patch(world: &mut World, center: Coord)
    requires
        old(world).wf(),
    ensures
        final(world).wf(),
        final(world)@ == patched(old(world)@, center, PATCH * PATCH),
{
    let mut k: i32 = 0;
    while k < 81
        invariant
            0 <= k <= 81,
            world.wf(),
            world@ == patched(old(world)@, center, k as int),
        decreases 81 - k,
    {
        if let Some(t) = offset(center, k % PATCH - 4, k / PATCH - 4) {
            world.raise_land(t.0, t.1);
        }
        k = k + 1;
    }
}

/// Plant and man a village around a tile; has it any houses?
fn people_camp(world: &mut World, entities: &mut Vec<Entity>, anchor: Coord) -> (r: bool)
    requires
        old(world).wf(),
    ensures
        final(world).wf(),
        ({
            let w = old(world)@.plant_camp(anchor, CAMP_HOUSES as int);
            let houses = w.enemy_house_tiles.skip(old(world)@.enemy_house_tiles.len() as int);
            &&& final(world)@ == w
            &&& r == (houses.len() > 0)
            &&& units_of(final(entities)@) == if r {
                units_of(old(entities)@) + garrison(w, houses, 6)
            } else {
                units_of(old(entities)@)
            }
        }),
{
    let first: usize = world.enemy_house_tiles().len();
    world.plant_camp(anchor, CAMP_HOUSES);
    if first < world.enemy_house_tiles().len() {
        man_camp(world, first, entities);
        true
    } else {
        false
    }
}

/// Enemy settlements: several villages scattered around the map. Where the search
/// finds too little land for them, ground is raised for the rest.
pub fn found_camps(world: &mut World, entities: &mut Vec<Entity>, rng: &mut Rng)
    requires
        old(world).wf(),
    ensures
        final(world).wf(),
        ({
            let camps = Camps {
                world: old(world)@,
                entities: units_of(old(entities)@),
                villages: 0,
                rng: old(rng)@,
            }.with_camps(CAMP_TRIES as int).filled(ENEMY_VILLAGES as int);
            &&& final(world)@ == camps.world
            &&& units_of(final(entities)@) == camps.entities
        }),
{
    let ghost start = Camps {
        world: world@,
        entities: units_of(entities@),
        villages: 0,
        rng: rng@,
    };
    let mut villages: usize = 0;
    let mut k: u32 = 0;
    while k < CAMP_TRIES
        invariant
            k <= CAMP_TRIES,
            villages <= k,
            world.wf(),
            start.with_camps(k as int) =~= (Camps {
                world: world@,
                entities: units_of(entities@),
                villages: villages as int,
                rng: rng@,
            }),
        decreases CAMP_TRIES - k,
    {
        if villages < ENEMY_VILLAGES {
            let dist: F32 = F32::from_int(55 + 35 * (k / 6) as i64 + rng.range(0, 35) as i64);
            let b: (u32, u32) = bearing(k % 6);
            let x: i32 = toward_zero(F32 { bits: b.0 }.mul(dist)).wrapping_add(rng.range(-8, 9));
            let y: i32 = toward_zero(F32 { bits: b.1 }.mul(dist)).wrapping_add(rng.range(-8, 9));
            if let Some(anchor) = find_camp_site(world, (x, y)) {
                if people_camp(world, entities, anchor) {
                    villages = villages + 1;
                }
            }
        }
        k = k + 1;
    }
    let ghost searched = start.with_camps(CAMP_TRIES as int);
    let mut n: usize = 0;
    while n < ENEMY_VILLAGES
        invariant
            n <= ENEMY_VILLAGES,
            villages <= CAMP_TRIES + n,
            world.wf(),
            searched.filled(n as int) =~= (Camps {
                world: world@,
                entities: units_of(entities@),
                villages: villages as int,
                rng: rng@,
            }),
        decreases ENEMY_VILLAGES - n,
    {
        if villages < ENEMY_VILLAGES {
            let east: i32 = eastmost(world.enemy_house_tiles());
            let t: Coord = (shift(east, CAMP_CLEARANCE + 1), 0);
            patch(world, t);
            if people_camp(world, entities, t) {
                villages = villages + 1;
            }
        }
        n = n + 1;
    }
}

impl Game {
    /// The game that a seed starts; the same seed always starts the same game.
    pub fn new(seed: i32) -> (r: Game)
        ensures
            r.wf(),
            r@ == GameView::founded(seed),
    {
        let mut world: World = World::new(seed);
        world.ensure_region(-ENSURE_MARGIN, -ENSURE_MARGIN, ENSURE_MARGIN, ENSURE_MARGIN);
        // The player starts controlling a single village near the origin, and
        // expands outward from it.
        let open: Vec<Coord> = open_tiles_near(&world, 0, 0, 24);
        let anchor: Coord = match nearest_house(&open, (0, 0)) {
            Some(t) => t,
            None => (0, 0),
        };
        let player_house_tiles: Vec<Coord> = settle_first(&mut world, anchor);
        let spots: Vec<Coord> = open_tiles_near(&world, anchor.0, anchor.1, 8);
        let mut entities: Vec<Entity> = first_villagers(&spots);
        let mut camp_rng: Rng = Rng::new((seed as u64) ^ CAMP_SALT);
        found_camps(&mut world, &mut entities, &mut camp_rng);
        let hut_tiles: Vec<Coord> = world.all_hut_tiles();
        Game {
            world,
            entities,
            wood: STARTING_STOCK,
            stone: STARTING_STOCK,
            build_mode: BuildMode::House,
            priority: Priority::Agriculture,
            gather_priority: GatherPriority::Balanced,
            enemies_defeated: 0,
            units_lost: 0,
            rally_point: None,
            player_house_tiles,
            cave_tiles: Vec::new(),
            hut_tiles,
            hut_orders: Vec::new(),
            saplings: Vec::new(),
            player_bridges: Vec::new(),
            enemy_spawn_timer: F32 { bits: ENEMY_SPAWN_INTERVAL },
            player_spawn_timer: F32 { bits: PLAYER_SPAWN_INTERVAL },
            player_spawn_cycle: 0,
            enemy_spawn_cycle: 0,
            rng: Rng::new((seed as u64) ^ GAME_SALT),
        }
    }
}

} // verus!
