//! How units decide what to do: farmers gather, sow and hide, knights fight,
//! build and come home.

use std::collections::HashMap;
use vstd::prelude::*;
use crate::chunk::Resource;
use crate::float::F32;
use crate::grid::{
    adjacent, adjacent_spec, contains, key, key_spec, near_any, near_any_spec, offset, offset_spec,
};
use crate::pathfind::{bfs, bfs_spec, decides, is_tile, opt_view, path_to, path_to_spec, walks};
use crate::rng::{range_next, range_value, Rng};
use crate::survey::{
    find_neighbor, first_neighbor, nearest_spec, nearest_where, neighbor_node, neighbor_node_spec, plantable_neighbor,
    plantable_neighbor_spec, stand_tile, stand_tile_spec,
};
use crate::unit::{Anim, Entity, EntityView, Faction, FARMER_SPEED, ZERO};
use crate::vec2::{Coord, Vec2};
use crate::world::{World, WorldView};

verus! {

broadcast use vstd::std_specs::hash::group_hash_axioms;

/// Seconds to harvest, sow or mine once: 2.
pub const HARVEST_TIME: u32 = 0x4000_0000;

/// Farmers never roam further than this from their nearest house — a hard leash
/// that keeps them tending the village instead of wandering off after resources.
pub const FARMER_HOME_RADIUS: i32 = 16;

/// A cave (mine) is a bottomless stone source, but only so many farmers can
/// work one at once.
pub const CAVE_CAPACITY: u32 = 4;

/// Knights hack through trees/rocks much slower than a farmer harvests, and
/// gain nothing — so they only bother when a node truly blocks their way: 5 seconds.
pub const KNIGHT_DEMOLISH_TIME: u32 = 0x40a0_0000;

/// Seconds a knight spends turning a tree into a hut: 4.
pub const HUT_BUILD_TIME: u32 = 0x4080_0000;

/// Most farmers that can shelter in a single hut.
pub const HUT_CAPACITY: u8 = 4;

/// A farmer flees to a hut when an enemy comes within this range: 6 tiles.
pub const DANGER_RADIUS: u32 = 0x40c0_0000;

/// Pathfinding budget (tiles expanded).
pub const PATH_BUDGET: usize = 4000;

/// Pathfinding budget of a stroll.
pub const WANDER_BUDGET: usize = 512;

/// How many spots an idle unit considers before it gives up for a while.
pub const WANDER_TRIES: u32 = 12;

/// Seconds before a route is looked for again: 0.7.
pub const REPATH_TIME: u32 = 0x3f33_3333;

/// Seconds an idle unit rests when it found nowhere to go: 0.8.
pub const REST_TIME: u32 = 0x3f4c_cccd;

/// Result of one entity's AI step that the game loop must apply to the world.
#[derive(Clone, Copy, PartialEq, Eq, Debug)]
pub enum StepEvent {
    Harvest(Coord),
    RaiseWall(Coord),
    /// A knight has smashed through a blocking tree/rock (no resources gained).
    Demolish(Coord),
    /// A farmer has sown a sapling on a bare tile (grows into a tree).
    Plant(Coord),
    /// A farmer pulled a unit of stone from a mine (bottomless).
    MineStone,
    /// A knight finished turning a tree into a hut at this tile.
    BuildHut(Coord),
    /// A farmer reached a hut and ducked inside to shelter.
    Hide(Coord),
}

/// What units reason over: the land, everyone's whereabouts, and the orders and
/// buildings of their faction.
pub struct Scene<'a> {
    pub world: &'a World,
    pub snap: &'a Vec<(Vec2, Faction)>,
    pub home: &'a Vec<Coord>,
    pub pref: Option<Resource>,
    pub rally: Option<Vec2>,
    pub huts: &'a Vec<Coord>,
    pub hut_orders: &'a Vec<Coord>,
    pub caves: &'a Vec<Coord>,
    pub saplings: &'a Vec<Coord>,
}

#[verifier::ext_equal]
pub struct SceneView {
    pub world: WorldView,
    pub snap: Seq<(Vec2, Faction)>,
    pub home: Seq<Coord>,
    pub pref: Option<Resource>,
    pub rally: Option<Vec2>,
    pub huts: Seq<Coord>,
    pub hut_orders: Seq<Coord>,
    pub caves: Seq<Coord>,
    pub saplings: Seq<Coord>,
}

impl<'a> View for Scene<'a> {
    type V = SceneView;

    open spec fn view(&self) -> SceneView {
        SceneView {
            world: self.world@,
            snap: self.snap@,
            home: self.home@,
            pref: self.pref,
            rally: self.rally,
            huts: self.huts@,
            hut_orders: self.hut_orders@,
            caves: self.caves@,
            saplings: self.saplings@,
        }
    }
}

impl<'a> Scene<'a> {
    pub open spec fn wf(&self) -> bool {
        self.world.wf()
    }
}

/// A unit after its step, with the state of the generator and of the mines'
/// rosters, and what is to happen to the world.
#[verifier::ext_equal]
pub struct Step {
    pub e: EntityView,
    pub rng: u64,
    pub uses: Map<u64, u32>,
    pub event: Option<StepEvent>,
}

// --- mines ----------------------------------------------------------------------

/// How many farmers work a mine.
pub open spec fn uses_of(uses: Map<u64, u32>, c: Coord) -> u32 {
    if uses.contains_key(key_spec(c)) {
        uses[key_spec(c)]
    } else {
        0
    }
}

pub fn mine_uses(uses: &HashMap<u64, u32>, c: Coord) -> (r: u32)
    ensures
        r == uses_of(uses@, c),
{
    match uses.get(&key(c)) {
        Some(n) => *n,
        None => 0,
    }
}

/// The rosters once a farmer's claim, if any, is given up.
pub open spec fn released(uses: Map<u64, u32>, claim: Option<Coord>) -> Map<u64, u32> {
    match claim {
        Some(c) => if uses.contains_key(key_spec(c)) {
            uses.insert(
                key_spec(c),
                if uses[key_spec(c)] == 0 {
                    0
                } else {
                    (uses[key_spec(c)] - 1) as u32
                },
            )
        } else {
            uses
        },
        None => uses,
    }
}

/// Release a farmer's claim on a mine, freeing its slot for someone else.
pub fn release_cave(e: &mut Entity, uses: &mut HashMap<u64, u32>)
    ensures
        final(e)@ == (EntityView { mine_target: None, ..old(e)@ }),
        final(uses)@ == released(old(uses)@, old(e)@.mine_target),
{
    if let Some(c) = e.mine_target {
        e.mine_target = None;
        let n: Option<u32> = match uses.get(&key(c)) {
            Some(n) => Some(*n),
            None => None,
        };
        if let Some(n) = n {
            uses.insert(
                key(c),
                if n == 0 {
                    0
                } else {
                    n - 1
                },
            );
        }
    }
}

/// A tile within the leash from which a farmer can work a mine.
pub open spec fn berth_spec(w: WorldView, owner: u8, home: Seq<Coord>, c: Coord) -> Option<Coord> {
    first_neighbor(c, 0, 4, leashed(w, owner, home, FARMER_HOME_RADIUS as int))
}

pub fn berth(world: &World, owner: u8, home: &Vec<Coord>, c: Coord) -> (r: Option<Coord>)
    requires
        world.wf(),
    ensures
        r == berth_spec(world@, owner, home@, c),
{
    let will_do = |x: i32, y: i32| -> (b: bool)
        requires
            world.wf(),
        ensures
            b == leashed(world@, owner, home@, FARMER_HOME_RADIUS as int)((x, y)),
        { near_any(home, (x, y), FARMER_HOME_RADIUS) && world.walkable_for(owner, x, y) };
    assert(decides(will_do, leashed(world@, owner, home@, FARMER_HOME_RADIUS as int)));
    find_neighbor(c, 4, will_do)
}

/// Mines with a free slot that a farmer can stand next to within the leash.
pub open spec fn claimable(
    w: WorldView,
    owner: u8,
    home: Seq<Coord>,
    uses: Map<u64, u32>,
) -> spec_fn(Coord) -> bool {
    |c: Coord|
        w.is_cave(c.0, c.1) && uses_of(uses, c) < CAVE_CAPACITY && near_any_spec(
            home,
            c,
            FARMER_HOME_RADIUS + 1,
        ) && berth_spec(w, owner, home, c) is Some
}

pub open spec fn claim_spec(s: SceneView, owner: u8, start: Coord, uses: Map<u64, u32>) -> Option<
    Coord,
> {
    nearest_spec(s.caves, start, claimable(s.world, owner, s.home, uses))
}

pub open spec fn claimed(uses: Map<u64, u32>, claim: Option<Coord>) -> Map<u64, u32> {
    match claim {
        Some(c) => uses.insert(key_spec(c), (uses_of(uses, c) + 1) as u32),
        None => uses,
    }
}

/// Claim a slot at the nearest mine with room, returning the cave tile.
pub fn claim_cave(s: &Scene, owner: u8, start: Coord, uses: &mut HashMap<u64, u32>) -> (r: Option<
    Coord,
>)
    requires
        s.wf(),
    ensures
        r == claim_spec(s@, owner, start, old(uses)@),
        final(uses)@ == claimed(old(uses)@, r),
{
    let world: &World = s.world;
    let home: &Vec<Coord> = s.home;
    let best: Option<Coord> = {
        let table: &HashMap<u64, u32> = &*uses;
        let will_do = |x: i32, y: i32| -> (b: bool)
            requires
                world.wf(),
            ensures
                b == claimable(world@, owner, home@, table@)((x, y)),
            {
                world.is_cave(x, y) && mine_uses(table, (x, y)) < CAVE_CAPACITY && near_any(
                    home,
                    (x, y),
                    FARMER_HOME_RADIUS + 1,
                ) && berth(world, owner, home, (x, y)).is_some()
            };
        assert(decides(will_do, claimable(world@, owner, home@, table@)));
        nearest_where(s.caves, start, will_do)
    };
    if let Some(c) = best {
        proof {
            crate::survey::law_nearest(
                s.caves@,
                start,
                claimable(world@, owner, home@, uses@),
            );
        }
        let n: u32 = mine_uses(uses, c);
        uses.insert(key(c), n + 1);
    }
    best
}

/// No roster is over capacity.
pub open spec fn rosters_fit(uses: Map<u64, u32>) -> bool {
    forall|k: u64| #[trigger] uses.contains_key(k) ==> uses[k] <= CAVE_CAPACITY
}

/// Claims never overfill a mine, and giving one up never does.
pub proof fn law_mine_capacity(
    s: SceneView,
    owner: u8,
    start: Coord,
    uses: Map<u64, u32>,
    given_up: Option<Coord>,
)
    requires
        rosters_fit(uses),
    ensures
        rosters_fit(claimed(uses, claim_spec(s, owner, start, uses))),
        rosters_fit(released(uses, given_up)),
{
    crate::survey::law_nearest(s.caves, start, claimable(s.world, owner, s.home, uses));
}

// --- routes -----------------------------------------------------------------------

/// Tiles within the leash that a farmer can walk on.
pub open spec fn leashed(w: WorldView, owner: u8, home: Seq<Coord>, r: int) -> spec_fn(
    Coord,
) -> bool {
    |t: Coord| near_any_spec(home, t, r) && w.walkable_for(owner, t.0, t.1)
}

/// The way to a tile that never leaves the leash.
pub open spec fn leash_path_spec(
    w: WorldView,
    owner: u8,
    home: Seq<Coord>,
    r: int,
    start: Coord,
    goal: Coord,
    max_visited: int,
) -> Option<Seq<Coord>> {
    bfs_spec(start, max_visited, is_tile(goal), leashed(w, owner, home, r))
}

pub fn leash_path(
    world: &World,
    owner: u8,
    home: &Vec<Coord>,
    r: i32,
    start: Coord,
    goal: Coord,
    max_visited: usize,
) -> (p: Option<Vec<Coord>>)
    requires
        world.wf(),
    ensures
        opt_view(p) == leash_path_spec(
            world@,
            owner,
            home@,
            r as int,
            start,
            goal,
            max_visited as int,
        ),
{
    let is_goal = |x: i32, y: i32| -> (b: bool)
        ensures
            b == ((x, y) == goal),
        { x == goal.0 && y == goal.1 };
    let passable = |x: i32, y: i32| -> (b: bool)
        requires
            world.wf(),
        ensures
            b == leashed(world@, owner, home@, r as int)((x, y)),
        { near_any(home, (x, y), r) && world.walkable_for(owner, x, y) };
    assert(decides(is_goal, is_tile(goal)));
    assert(decides(passable, leashed(world@, owner, home@, r as int)));
    bfs(start, max_visited, is_goal, passable)
}

/// Tiles within the leash from which a node can be worked.
pub open spec fn beside_node(
    w: WorldView,
    owner: u8,
    home: Seq<Coord>,
    kind: Option<Resource>,
) -> spec_fn(Coord) -> bool {
    |t: Coord|
        near_any_spec(home, t, FARMER_HOME_RADIUS as int) && w.walkable_for(owner, t.0, t.1)
            && neighbor_node_spec(w, t, kind) is Some
}

/// Tiles within the leash from which a sapling can be sown.
pub open spec fn beside_plot(
    w: WorldView,
    owner: u8,
    home: Seq<Coord>,
    saplings: Seq<Coord>,
) -> spec_fn(Coord) -> bool {
    |t: Coord|
        near_any_spec(home, t, FARMER_HOME_RADIUS as int) && w.walkable_for(owner, t.0, t.1)
            && plantable_neighbor_spec(
            w,
            home,
            FARMER_HOME_RADIUS as int,
            saplings,
            t,
        ) is Some
}

pub open spec fn end_of(path: Seq<Coord>, start: Coord) -> Coord {
    if path.len() == 0 {
        start
    } else {
        path.last()
    }
}

fn path_end(path: &Vec<Coord>, start: Coord) -> (r: Coord)
    ensures
        r == end_of(path@, start),
{
    if path.len() == 0 {
        start
    } else {
        path[path.len() - 1]
    }
}

/// A route, and the tile to work on at its end.
pub open spec fn plan_view(p: Option<(Vec<Coord>, Coord)>) -> Option<(Seq<Coord>, Coord)> {
    match p {
        Some(q) => Some((q.0@, q.1)),
        None => None,
    }
}

pub open spec fn plan_gather_kind_spec(
    w: WorldView,
    owner: u8,
    start: Coord,
    kind: Option<Resource>,
    home: Seq<Coord>,
) -> Option<(Seq<Coord>, Coord)> {
    match bfs_spec(
        start,
        PATH_BUDGET as int,
        beside_node(w, owner, home, kind),
        leashed(w, owner, home, FARMER_HOME_RADIUS as int),
    ) {
        Some(path) => match neighbor_node_spec(w, end_of(path, start), kind) {
            Some(node) => Some((path, node)),
            None => None,
        },
        None => None,
    }
}

fn plan_gather_kind(
    world: &World,
    owner: u8,
    start: Coord,
    kind: Option<Resource>,
    home: &Vec<Coord>,
) -> (r: Option<(Vec<Coord>, Coord)>)
    requires
        world.wf(),
    ensures
        plan_view(r) == plan_gather_kind_spec(world@, owner, start, kind, home@),
{
    let is_goal = |x: i32, y: i32| -> (b: bool)
        requires
            world.wf(),
        ensures
            b == beside_node(world@, owner, home@, kind)((x, y)),
        {
            near_any(home, (x, y), FARMER_HOME_RADIUS) && world.walkable_for(owner, x, y)
                && neighbor_node(world, (x, y), kind).is_some()
        };
    let passable = |x: i32, y: i32| -> (b: bool)
        requires
            world.wf(),
        ensures
            b == leashed(world@, owner, home@, FARMER_HOME_RADIUS as int)((x, y)),
        { near_any(home, (x, y), FARMER_HOME_RADIUS) && world.walkable_for(owner, x, y) };
    assert(decides(is_goal, beside_node(world@, owner, home@, kind)));
    assert(decides(passable, leashed(world@, owner, home@, FARMER_HOME_RADIUS as int)));
    // Search stays inside the leash so a farmer never chases a node out of town.
    match bfs(start, PATH_BUDGET, is_goal, passable) {
        Some(path) => {
            let dest: Coord = path_end(&path, start);
            match neighbor_node(world, dest, kind) {
                Some(node) => Some((path, node)),
                None => None,
            }
        },
        None => None,
    }
}

pub open spec fn plan_gather_spec(
    w: WorldView,
    owner: u8,
    start: Coord,
    pref: Option<Resource>,
    home: Seq<Coord>,
) -> Option<(Seq<Coord>, Coord)> {
    if pref is Some && plan_gather_kind_spec(w, owner, start, pref, home) is Some {
        plan_gather_kind_spec(w, owner, start, pref, home)
    } else {
        plan_gather_kind_spec(w, owner, start, None, home)
    }
}

/// Route to the nearest reachable node, preferring `pref` and falling back to
/// any resource if none of the preferred kind is reachable.
pub fn plan_gather(
    world: &World,
    owner: u8,
    start: Coord,
    pref: Option<Resource>,
    home: &Vec<Coord>,
) -> (r: Option<(Vec<Coord>, Coord)>)
    requires
        world.wf(),
    ensures
        plan_view(r) == plan_gather_spec(world@, owner, start, pref, home@),
{
    if pref.is_some() {
        let found: Option<(Vec<Coord>, Coord)> = plan_gather_kind(world, owner, start, pref, home);
        if found.is_some() {
            return found;
        }
    }
    plan_gather_kind(world, owner, start, None, home)
}

pub open spec fn plan_plant_spec(
    w: WorldView,
    owner: u8,
    start: Coord,
    home: Seq<Coord>,
    saplings: Seq<Coord>,
) -> Option<(Seq<Coord>, Coord)> {
    match bfs_spec(
        start,
        PATH_BUDGET as int,
        beside_plot(w, owner, home, saplings),
        leashed(w, owner, home, FARMER_HOME_RADIUS as int),
    ) {
        Some(path) => match plantable_neighbor_spec(
            w,
            home,
            FARMER_HOME_RADIUS as int,
            saplings,
            end_of(path, start),
        ) {
            Some(spot) => Some((path, spot)),
            None => None,
        },
        None => None,
    }
}

/// Route to a spot where the farmer can sow a fresh sapling.
pub fn plan_plant(
    world: &World,
    owner: u8,
    start: Coord,
    home: &Vec<Coord>,
    saplings: &Vec<Coord>,
) -> (r: Option<(Vec<Coord>, Coord)>)
    requires
        world.wf(),
    ensures
        plan_view(r) == plan_plant_spec(world@, owner, start, home@, saplings@),
{
    let is_goal = |x: i32, y: i32| -> (b: bool)
        requires
            world.wf(),
        ensures
            b == beside_plot(world@, owner, home@, saplings@)((x, y)),
        {
            near_any(home, (x, y), FARMER_HOME_RADIUS) && world.walkable_for(owner, x, y)
                && plantable_neighbor(world, home, FARMER_HOME_RADIUS, saplings, (x, y)).is_some()
        };
    let passable = |x: i32, y: i32| -> (b: bool)
        requires
            world.wf(),
        ensures
            b == leashed(world@, owner, home@, FARMER_HOME_RADIUS as int)((x, y)),
        { near_any(home, (x, y), FARMER_HOME_RADIUS) && world.walkable_for(owner, x, y) };
    assert(decides(is_goal, beside_plot(world@, owner, home@, saplings@)));
    assert(decides(passable, leashed(world@, owner, home@, FARMER_HOME_RADIUS as int)));
    match bfs(start, PATH_BUDGET, is_goal, passable) {
        Some(path) => {
            let dest: Coord = path_end(&path, start);
            match plantable_neighbor(world, home, FARMER_HOME_RADIUS, saplings, dest) {
                Some(spot) => Some((path, spot)),
                None => None,
            }
        },
        None => None,
    }
}

pub open spec fn among(tiles: Seq<Coord>) -> spec_fn(Coord) -> bool {
    |t: Coord| tiles.contains(t)
}

pub open spec fn sieges(w: WorldView, owner: u8) -> spec_fn(Coord) -> bool {
    |t: Coord| w.walkable_for_siege(owner, t.0, t.1)
}

/// A clear route to one of the tiles, or else one through trees and rocks.
pub open spec fn assault_spec(w: WorldView, owner: u8, start: Coord, targets: Seq<Coord>) -> Option<
    Seq<Coord>,
> {
    match bfs_spec(start, PATH_BUDGET as int, among(targets), walks(w, owner)) {
        Some(p) => Some(p),
        None => bfs_spec(start, PATH_BUDGET as int, among(targets), sieges(w, owner)),
    }
}

pub fn assault(world: &World, owner: u8, start: Coord, targets: &Vec<Coord>) -> (r: Option<
    Vec<Coord>,
>)
    requires
        world.wf(),
    ensures
        opt_view(r) == assault_spec(world@, owner, start, targets@),
{
    let is_goal = |x: i32, y: i32| -> (b: bool)
        ensures
            b == targets@.contains((x, y)),
        { contains(targets, (x, y)) };
    let passable = |x: i32, y: i32| -> (b: bool)
        requires
            world.wf(),
        ensures
            b == world@.walkable_for(owner, x, y),
        { world.walkable_for(owner, x, y) };
    assert(decides(is_goal, among(targets@)));
    assert(decides(passable, walks(world@, owner)));
    let clear: Option<Vec<Coord>> = bfs(start, PATH_BUDGET, is_goal, passable);
    if clear.is_some() {
        return clear;
    }
    let is_goal = |x: i32, y: i32| -> (b: bool)
        ensures
            b == targets@.contains((x, y)),
        { contains(targets, (x, y)) };
    let breakable = |x: i32, y: i32| -> (b: bool)
        requires
            world.wf(),
        ensures
            b == world@.walkable_for_siege(owner, x, y),
        { world.walkable_for_siege(owner, x, y) };
    assert(decides(is_goal, among(targets@)));
    assert(decides(breakable, sieges(world@, owner)));
    bfs(start, PATH_BUDGET, is_goal, breakable)
}

// --- shelter ------------------------------------------------------------------------

/// Is an enemy of `faction` within `r` of `pos`?
pub open spec fn enemy_within_spec(
    snap: Seq<(Vec2, Faction)>,
    pos: Vec2,
    faction: Faction,
    r: F32,
) -> bool {
    exists|i: int|
        0 <= i < snap.len() && (#[trigger] snap[i]).1 != faction
            && snap[i].0.distance_squared_spec(pos).le_spec(r.mul_spec(r))
}

pub fn enemy_within(snap: &Vec<(Vec2, Faction)>, pos: Vec2, faction: Faction, r: F32) -> (b: bool)
    ensures
        b == enemy_within_spec(snap@, pos, faction, r),
{
    let r2: F32 = r.mul(r);
    let mut i: usize = 0;
    while i < snap.len()
        invariant
            i <= snap.len(),
            r2 == r.mul_spec(r),
            forall|j: int|
                0 <= j < i && (#[trigger] snap@[j]).1 != faction ==> !snap@[j].0.distance_squared_spec(
                    pos,
                ).le_spec(r2),
        decreases snap.len() - i,
    {
        if snap[i].1 != faction && snap[i].0.distance_squared(pos).le(r2) {
            assert(snap@[i as int].1 != faction);
            return true;
        }
        i = i + 1;
    }
    false
}

/// Friendly huts with room and a doorway.
pub open spec fn shelters(w: WorldView, owner: u8) -> spec_fn(Coord) -> bool {
    |t: Coord|
        w.hut(t.0, t.1) is Some && w.hut(t.0, t.1)->0.owner == owner && w.hut(t.0, t.1)->0.occupants
            < HUT_CAPACITY && stand_tile_spec(w, owner, t) is Some
}

/// Nearest friendly hut (owned by `owner`) with room and a reachable doorway.
pub fn nearest_shelter(world: &World, owner: u8, huts: &Vec<Coord>, start: Coord) -> (r: Option<
    Coord,
>)
    requires
        world.wf(),
    ensures
        r == nearest_spec(huts@, start, shelters(world@, owner)),
{
    let will_do = |x: i32, y: i32| -> (b: bool)
        requires
            world.wf(),
        ensures
            b == shelters(world@, owner)((x, y)),
        {
            match world.hut(x, y) {
                Some(h) => h.owner == owner && h.occupants < HUT_CAPACITY && stand_tile(
                    world,
                    owner,
                    (x, y),
                ).is_some(),
                None => false,
            }
        };
    assert(decides(will_do, shelters(world@, owner)));
    nearest_where(huts, start, will_do)
}

pub open spec fn due(e: EntityView) -> bool {
    e.repath.le_spec(F32 { bits: ZERO }) || e.path_done()
}

pub fn is_due(e: &Entity) -> (r: bool)
    ensures
        r == due(e@),
{
    e.repath.le(F32 { bits: ZERO }) || e.path_done()
}

/// Head for a tile, looking for a route when it is time to.
pub open spec fn head_for(w: WorldView, e: EntityView, owner: u8, goal: Coord) -> EntityView {
    if due(e) {
        let routed = match path_to_spec(w, owner, e.tile(), goal, PATH_BUDGET as int) {
            Some(p) => e.set_path(p),
            None => e,
        };
        EntityView { repath: F32 { bits: REPATH_TIME }, ..routed }
    } else {
        e
    }
}

pub fn set_out(world: &World, e: &mut Entity, owner: u8, goal: Coord)
    requires
        world.wf(),
    ensures
        final(e)@ == head_for(world@, old(e)@, owner, goal),
{
    if is_due(e) {
        let here: Coord = e.tile();
        if let Some(p) = path_to(world, owner, here, goal, PATH_BUDGET) {
            e.set_path(p);
        }
        e.repath = F32 { bits: REPATH_TIME };
    }
}

pub open spec fn seek_shelter_spec(
    s: SceneView,
    e: EntityView,
    owner: u8,
    faction: Faction,
    dt: F32,
) -> Option<(EntityView, Option<StepEvent>)> {
    if !enemy_within_spec(s.snap, e.pos, faction, F32 { bits: DANGER_RADIUS }) {
        None
    } else {
        match nearest_spec(s.huts, e.tile(), shelters(s.world, owner)) {
            None => None,
            Some(hut) => if adjacent_spec(e.tile(), hut) {
                Some((e, Some(StepEvent::Hide(hut))))
            } else {
                let out = match stand_tile_spec(s.world, owner, hut) {
                    Some(stand) => head_for(s.world, e, owner, stand),
                    None => e,
                };
                Some((out.walk(F32 { bits: FARMER_SPEED }, dt), None))
            },
        }
    }
}

/// When an enemy is close and a friendly hut has room, run for it. Returns
/// `Some(_)` when the farmer is fleeing (the inner event is `Hide` on arrival,
/// or `None` while still running); `None` means "no need to flee".
pub fn seek_shelter(s: &Scene, e: &mut Entity, owner: u8, faction: Faction, dt: F32) -> (r: Option<
    Option<StepEvent>,
>)
    requires
        s.wf(),
    ensures
        match r {
            Some(event) => seek_shelter_spec(s@, old(e)@, owner, faction, dt) == Some(
                (final(e)@, event),
            ),
            None => seek_shelter_spec(s@, old(e)@, owner, faction, dt) is None && final(e)@ == old(
                e,
            )@,
        },
{
    if !enemy_within(s.snap, e.pos, faction, F32 { bits: DANGER_RADIUS }) {
        return None;
    }
    let here: Coord = e.tile();
    match nearest_shelter(s.world, owner, s.huts, here) {
        None => None,
        Some(hut) => {
            if adjacent(here, hut) {
                return Some(Some(StepEvent::Hide(hut)));
            }
            if let Some(stand) = stand_tile(s.world, owner, hut) {
                set_out(s.world, e, owner, stand);
            }
            e.walk(F32 { bits: FARMER_SPEED }, dt);
            Some(None)
        },
    }
}

// --- strolling ---------------------------------------------------------------------

/// Draw up to `n` spots near a tile; the first that can be walked to, with the
/// way there.
pub open spec fn stroll(
    w: WorldView,
    owner: u8,
    home: Option<(Seq<Coord>, int)>,
    at: Coord,
    rng: u64,
    n: int,
) -> (u64, Option<Seq<Coord>>)
    decreases n,
{
    if n <= 0 {
        (rng, None)
    } else {
        let dx = range_value(rng, -6, 7);
        let mid = range_next(rng, -6, 7);
        let dy = range_value(mid, -6, 7);
        let after = range_next(mid, -6, 7);
        let way = match offset_spec(at, dx, dy) {
            Some(t) => if (home is Some ==> near_any_spec((home->0).0, t, (home->0).1))
                && w.walkable_for(owner, t.0, t.1) {
                match home {
                    Some(h) => leash_path_spec(w, owner, h.0, h.1, at, t, WANDER_BUDGET as int),
                    None => path_to_spec(w, owner, at, t, WANDER_BUDGET as int),
                }
            } else {
                None
            },
            None => None,
        };
        if way is Some && way->0.len() > 0 {
            (after, way)
        } else {
            stroll(w, owner, home, at, after, n - 1)
        }
    }
}

pub open spec fn wander_spec(
    w: WorldView,
    e: EntityView,
    owner: u8,
    home: Option<(Seq<Coord>, int)>,
    rng: u64,
    dt: F32,
) -> (EntityView, u64) {
    if !e.path_done() {
        (e.walk(F32 { bits: FARMER_SPEED }, dt), rng)
    } else if (F32 { bits: ZERO }).lt_spec(e.repath) {
        (e.set_anim(Anim::Idle, dt), rng)
    } else {
        let (after, way) = stroll(w, owner, home, e.tile(), rng, WANDER_TRIES as int);
        match way {
            Some(p) => (e.set_path(p).set_anim(Anim::Walk, dt), after),
            None => (
                (EntityView { repath: F32 { bits: REST_TIME }, ..e }).set_anim(Anim::Idle, dt),
                after,
            ),
        }
    }
}

pub open spec fn leash_view(home: Option<(&Vec<Coord>, i32)>) -> Option<(Seq<Coord>, int)> {
    match home {
        Some(h) => Some((h.0@, h.1 as int)),
        None => None,
    }
}

/// Idle roaming. When `home` is set (player farmers), wandering is confined to
/// the leash so they never drift out of the village.
pub fn wander_behavior(
    world: &World,
    e: &mut Entity,
    owner: u8,
    home: Option<(&Vec<Coord>, i32)>,
    rng: &mut Rng,
    dt: F32,
)
    requires
        world.wf(),
    ensures
        (final(e)@, final(rng)@) == wander_spec(
            world@,
            old(e)@,
            owner,
            leash_view(home),
            old(rng)@,
            dt,
        ),
{
    if !e.path_done() {
        e.walk(F32 { bits: FARMER_SPEED }, dt);
        return;
    }
    if (F32 { bits: ZERO }).lt(e.repath) {
        e.set_anim(Anim::Idle, dt);
        return;
    }
    let at: Coord = e.tile();
    let ghost all = stroll(world@, owner, leash_view(home), at, rng@, WANDER_TRIES as int);
    let mut n: u32 = WANDER_TRIES;
    while n > 0
        invariant
            world.wf(),
            e@ == old(e)@,
            at == e@.tile(),
            e@.path_done(),
            !((F32 { bits: ZERO }).lt_spec(e@.repath)),
            all == stroll(
                world@,
                owner,
                leash_view(home),
                at,
                old(rng)@,
                WANDER_TRIES as int,
            ),
            stroll(world@, owner, leash_view(home), at, rng@, n as int) == all,
        decreases n,
    {
        let dx: i32 = rng.range(-6, 7);
        let dy: i32 = rng.range(-6, 7);
        if let Some(t) = offset(at, dx, dy) {
            let allowed: bool = match home {
                Some(h) => near_any(h.0, t, h.1),
                None => true,
            };
            if allowed && world.walkable_for(owner, t.0, t.1) {
                let way: Option<Vec<Coord>> = match home {
                    Some(h) => leash_path(world, owner, h.0, h.1, at, t, WANDER_BUDGET),
                    None => path_to(world, owner, at, t, WANDER_BUDGET),
                };
                if let Some(p) = way {
                    if p.len() > 0 {
                        e.set_path(p);
                        e.set_anim(Anim::Walk, dt);
                        return;
                    }
                }
            }
        }
        n = n - 1;
    }
    e.repath = F32 { bits: REST_TIME };
    e.set_anim(Anim::Idle, dt);
}

} // verus!
