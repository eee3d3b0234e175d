//! The player's farmers: they gather, mine and sow within reach of home, and run
//! for a hut when the enemy is near.

use std::collections::HashMap;
use vstd::prelude::*;
use crate::behavior::{
    berth, berth_spec, claim_cave, claim_spec, claimed, head_for, leash_path, leash_path_spec,
    plan_gather, plan_gather_spec, plan_plant,
    plan_plant_spec, release_cave, released, seek_shelter, seek_shelter_spec, set_out,
    wander_behavior, wander_spec, Scene, SceneView, Step, StepEvent, FARMER_HOME_RADIUS,
    HARVEST_TIME, PATH_BUDGET,
};
use crate::chunk::Resource;
use crate::float::F32;
use crate::grid::{adjacent, adjacent_spec, near_any, near_any_spec};
use crate::pathfind::opt_view;
use crate::rng::Rng;
use crate::survey::{anything, nearest_house, nearest_spec};
use crate::unit::{Anim, Entity, EntityView, Faction, FARMER_SPEED, ZERO};
use crate::vec2::Coord;
use crate::world::{World, WorldView};

verus! {

/// A unit that has started a spell of work.
pub open spec fn at_work(e: EntityView) -> EntityView {
    EntityView { harvest_timer: F32 { bits: HARVEST_TIME }, ..e }
}

/// The way into a mine, on the leash.
pub open spec fn way_in_spec(
    w: WorldView,
    owner: u8,
    home: Seq<Coord>,
    here: Coord,
    c: Coord,
) -> Option<Seq<Coord>> {
    match berth_spec(w, owner, home, c) {
        Some(stand) => leash_path_spec(
            w,
            owner,
            home,
            FARMER_HOME_RADIUS as int,
            here,
            stand,
            PATH_BUDGET as int,
        ),
        None => None,
    }
}

fn way_in(world: &World, owner: u8, home: &Vec<Coord>, here: Coord, c: Coord) -> (r: Option<
    Vec<Coord>,
>)
    requires
        world.wf(),
    ensures
        opt_view(r) == way_in_spec(world@, owner, home@, here, c),
{
    match berth(world, owner, home, c) {
        Some(stand) => leash_path(
            world,
            owner,
            home,
            FARMER_HOME_RADIUS,
            here,
            stand,
            PATH_BUDGET,
        ),
        None => None,
    }
}

/// A spell of work goes on; at its end the stone is banked, or the node harvested
/// or the plot sown.
pub open spec fn work_spec(
    w: WorldView,
    e: EntityView,
    rng: u64,
    uses: Map<u64, u32>,
    dt: F32,
) -> Step {
    let target = if e.mine_target is Some {
        e.mine_target
    } else {
        e.target_node
    };
    let turned = match target {
        Some(t) => e.face(t),
        None => e,
    };
    let acted = turned.set_anim(Anim::Act, dt);
    let later = EntityView { harvest_timer: acted.harvest_timer.sub_spec(dt), ..acted };
    if !later.harvest_timer.le_spec(F32 { bits: ZERO }) {
        Step { e: later, rng, uses, event: None }
    } else {
        match e.mine_target {
            Some(c) => if w.is_cave(c.0, c.1) && adjacent_spec(e.tile(), c) {
                Step { e: at_work(later), rng, uses, event: Some(StepEvent::MineStone) }
            } else {
                Step {
                    e: EntityView { mine_target: None, ..later },
                    rng,
                    uses: released(uses, e.mine_target),
                    event: None,
                }
            },
            None => match e.target_node {
                Some(t) => Step {
                    e: EntityView { target_node: None, ..later }.set_path(Seq::empty()),
                    rng,
                    uses,
                    event: Some(
                        if w.node(t.0, t.1) is Some {
                            StepEvent::Harvest(t)
                        } else {
                            StepEvent::Plant(t)
                        },
                    ),
                },
                None => Step { e: later, rng, uses, event: None },
            },
        }
    }
}

/// Working: mining a cave, harvesting a node, or tending a sapling.
fn work(world: &World, e: &mut Entity, rng: &Rng, uses: &mut HashMap<u64, u32>, dt: F32) -> (r:
    Option<StepEvent>)
    requires
        world.wf(),
    ensures
        work_spec(world@, old(e)@, rng@, old(uses)@, dt) == (Step {
            e: final(e)@,
            rng: rng@,
            uses: final(uses)@,
            event: r,
        }),
{
    let here: Coord = e.tile();
    let target: Option<Coord> = if e.mine_target.is_some() {
        e.mine_target
    } else {
        e.target_node
    };
    if let Some(t) = target {
        e.face(t);
    }
    e.set_anim(Anim::Act, dt);
    e.harvest_timer = e.harvest_timer.sub(dt);
    if !e.harvest_timer.le(F32 { bits: ZERO }) {
        return None;
    }
    if let Some(c) = e.mine_target {
        // A mine never runs dry: bank the stone and keep swinging.
        if world.is_cave(c.0, c.1) && adjacent(here, c) {
            e.harvest_timer = F32 { bits: HARVEST_TIME };
            return Some(StepEvent::MineStone);
        }
        release_cave(e, uses);
        return None;
    }
    if let Some(t) = e.target_node {
        e.target_node = None;
        e.stop();
        return Some(
            if world.node(t.0, t.1).is_some() {
                StepEvent::Harvest(t)
            } else {
                StepEvent::Plant(t)
            },
        );
    }
    None
}

/// Off to the work tile, or straight to work when already beside it.
pub open spec fn set_to_work(e: EntityView, path: Seq<Coord>, dt: F32) -> EntityView {
    if path.len() == 0 {
        at_work(e).set_anim(Anim::Act, dt)
    } else {
        e.set_path(path).set_anim(Anim::Walk, dt)
    }
}

fn start_work(e: &mut Entity, path: Vec<Coord>, dt: F32)
    ensures
        final(e)@ == set_to_work(old(e)@, path@, dt),
{
    if path.len() == 0 {
        e.harvest_timer = F32 { bits: HARVEST_TIME };
        e.set_anim(Anim::Act, dt);
    } else {
        e.set_path(path);
        e.set_anim(Anim::Walk, dt);
    }
}

/// With nothing left to harvest, who goes mining; with no preference, those on
/// every other tile.
pub open spec fn wants_stone_spec(pref: Option<Resource>, here: Coord) -> bool {
    match pref {
        Some(Resource::Stone) => true,
        Some(Resource::Wood) => false,
        None => (here.0 + here.1) % 2 == 0,
    }
}

fn wants_stone(pref: Option<Resource>, here: Coord) -> (r: bool)
    ensures
        r == wants_stone_spec(pref, here),
{
    match pref {
        Some(Resource::Stone) => true,
        Some(Resource::Wood) => false,
        None => {
            let sum: i64 = here.0 as i64 + here.1 as i64 + 0x1_0000_0000;
            sum % 2 == 0
        },
    }
}

/// A farmer with nothing in hand: gather the nearest node within the leash, or
/// else mine, or else sow, or else potter about.
pub open spec fn find_work_spec(
    s: SceneView,
    e: EntityView,
    rng: u64,
    uses: Map<u64, u32>,
    owner: u8,
    dt: F32,
) -> Step {
    let here = e.tile();
    let claim = claim_spec(s, owner, here, uses);
    match plan_gather_spec(s.world, owner, here, s.pref, s.home) {
        Some((path, node)) => Step {
            e: set_to_work(EntityView { target_node: Some(node), ..e }, path, dt),
            rng,
            uses,
            event: None,
        },
        None => if wants_stone_spec(s.pref, here) && claim is Some {
            let miner = EntityView { mine_target: claim, ..e };
            Step {
                e: if adjacent_spec(here, claim->0) {
                    at_work(miner).set_anim(Anim::Act, dt)
                } else {
                    match way_in_spec(s.world, owner, s.home, here, claim->0) {
                        Some(p) => miner.set_path(p).set_anim(Anim::Walk, dt),
                        None => miner,
                    }
                },
                rng,
                uses: claimed(uses, claim),
                event: None,
            }
        } else {
            match plan_plant_spec(s.world, owner, here, s.home, s.saplings) {
                Some((path, spot)) => Step {
                    e: set_to_work(EntityView { target_node: Some(spot), ..e }, path, dt),
                    rng,
                    uses,
                    event: None,
                },
                None => {
                    let (idler, after) = wander_spec(
                        s.world,
                        e,
                        owner,
                        Some((s.home, FARMER_HOME_RADIUS as int)),
                        rng,
                        dt,
                    );
                    Step { e: idler, rng: after, uses, event: None }
                },
            }
        },
    }
}

fn find_work(
    s: &Scene,
    e: &mut Entity,
    rng: &mut Rng,
    uses: &mut HashMap<u64, u32>,
    owner: u8,
    dt: F32,
)
    requires
        s.wf(),
    ensures
        find_work_spec(s@, old(e)@, old(rng)@, old(uses)@, owner, dt) == (Step {
            e: final(e)@,
            rng: final(rng)@,
            uses: final(uses)@,
            event: None,
        }),
{
    let here: Coord = e.tile();
    // Gather the nearest reachable rock/tree within the leash.
    if let Some(plan) = plan_gather(s.world, owner, here, s.pref, s.home) {
        let (path, node) = plan;
        e.target_node = Some(node);
        start_work(e, path, dt);
        return;
    }
    // Nothing left to harvest nearby: replenish instead of wandering off.
    if wants_stone(s.pref, here) {
        if let Some(c) = claim_cave(s, owner, here, uses) {
            e.mine_target = Some(c);
            if adjacent(here, c) {
                e.harvest_timer = F32 { bits: HARVEST_TIME };
                e.set_anim(Anim::Act, dt);
            } else if let Some(p) = way_in(s.world, owner, s.home, here, c) {
                e.set_path(p);
                e.set_anim(Anim::Walk, dt);
            }
            return;
        }
        // No mine with a free slot: fall through and make ourselves useful sowing.
    }
    // Sow a sapling on fresh ground to regrow the forest.
    if let Some(plan) = plan_plant(s.world, owner, here, s.home, s.saplings) {
        let (path, spot) = plan;
        e.target_node = Some(spot);
        start_work(e, path, dt);
        return;
    }
    // Truly idle: potter about, but stay on the leash.
    wander_behavior(s.world, e, owner, Some((s.home, FARMER_HOME_RADIUS)), rng, dt);
}

/// A farmer who has arrived: start on the tile walked to, or let it go when it
/// cannot be worked.
pub open spec fn resume_spec(
    s: SceneView,
    e: EntityView,
    rng: u64,
    uses: Map<u64, u32>,
    owner: u8,
    dt: F32,
) -> Step {
    match e.target_node {
        Some(t) => if (s.world.node(t.0, t.1) is Some || s.world.is_open_grass(t.0, t.1))
            && adjacent_spec(e.tile(), t) {
            Step { e: at_work(e).face(t).set_anim(Anim::Act, dt), rng, uses, event: None }
        } else {
            find_work_spec(s, EntityView { target_node: None, ..e }, rng, uses, owner, dt)
        },
        None => find_work_spec(s, e, rng, uses, owner, dt),
    }
}

fn resume(
    s: &Scene,
    e: &mut Entity,
    rng: &mut Rng,
    uses: &mut HashMap<u64, u32>,
    owner: u8,
    dt: F32,
)
    requires
        s.wf(),
    ensures
        resume_spec(s@, old(e)@, old(rng)@, old(uses)@, owner, dt) == (Step {
            e: final(e)@,
            rng: final(rng)@,
            uses: final(uses)@,
            event: None,
        }),
{
    if let Some(t) = e.target_node {
        let here: Coord = e.tile();
        let workable: bool = s.world.node(t.0, t.1).is_some() || s.world.is_open_grass(t.0, t.1);
        if workable && adjacent(here, t) {
            e.harvest_timer = F32 { bits: HARVEST_TIME };
            e.face(t);
            e.set_anim(Anim::Act, dt);
            return;
        }
        e.target_node = None;
    }
    find_work(s, e, rng, uses, owner, dt);
}

/// A farmer with a claim on a mine works it, or walks in; one that cannot be
/// worked or reached is given up.
pub open spec fn settle_spec(
    s: SceneView,
    e: EntityView,
    rng: u64,
    uses: Map<u64, u32>,
    owner: u8,
    dt: F32,
) -> Step {
    match e.mine_target {
        Some(c) => {
            let open = s.world.is_cave(c.0, c.1);
            let way = way_in_spec(s.world, owner, s.home, e.tile(), c);
            if open && adjacent_spec(e.tile(), c) {
                Step { e: at_work(e).face(c).set_anim(Anim::Act, dt), rng, uses, event: None }
            } else if open && way is Some {
                Step { e: e.set_path(way->0).set_anim(Anim::Walk, dt), rng, uses, event: None }
            } else {
                resume_spec(
                    s,
                    EntityView { mine_target: None, ..e },
                    rng,
                    released(uses, e.mine_target),
                    owner,
                    dt,
                )
            }
        },
        None => resume_spec(s, e, rng, uses, owner, dt),
    }
}

fn settle(
    s: &Scene,
    e: &mut Entity,
    rng: &mut Rng,
    uses: &mut HashMap<u64, u32>,
    owner: u8,
    dt: F32,
)
    requires
        s.wf(),
    ensures
        settle_spec(s@, old(e)@, old(rng)@, old(uses)@, owner, dt) == (Step {
            e: final(e)@,
            rng: final(rng)@,
            uses: final(uses)@,
            event: None,
        }),
{
    if let Some(c) = e.mine_target {
        let here: Coord = e.tile();
        if s.world.is_cave(c.0, c.1) {
            if adjacent(here, c) {
                e.harvest_timer = F32 { bits: HARVEST_TIME };
                e.face(c);
                e.set_anim(Anim::Act, dt);
                return;
            }
            if let Some(p) = way_in(s.world, owner, s.home, here, c) {
                e.set_path(p);
                e.set_anim(Anim::Walk, dt);
                return;
            }
        }
        release_cave(e, uses);
    }
    resume(s, e, rng, uses, owner, dt);
}

pub open spec fn gather_spec(
    s: SceneView,
    e: EntityView,
    rng: u64,
    uses: Map<u64, u32>,
    owner: u8,
    dt: F32,
) -> Step {
    match seek_shelter_spec(s, e, owner, Faction::Player, dt) {
        Some((fled, event)) => Step {
            e: EntityView { mine_target: None, ..fled },
            rng,
            uses: released(uses, fled.mine_target),
            event,
        },
        None => if !near_any_spec(s.home, e.tile(), FARMER_HOME_RADIUS as int) {
            let free = EntityView { mine_target: None, target_node: None, ..e };
            let bound = match nearest_spec(s.home, e.tile(), anything()) {
                Some(h) => head_for(s.world, free, owner, h),
                None => free,
            };
            Step {
                e: bound.walk(F32 { bits: FARMER_SPEED }, dt),
                rng,
                uses: released(uses, e.mine_target),
                event: None,
            }
        } else if (F32 { bits: ZERO }).lt_spec(e.harvest_timer) {
            work_spec(s.world, e, rng, uses, dt)
        } else if !e.path_done() {
            Step { e: e.walk(F32 { bits: FARMER_SPEED }, dt), rng, uses, event: None }
        } else {
            settle_spec(s, e, rng, uses, owner, dt)
        },
    }
}

/// One step of a player farmer.
pub fn gather_behavior(
    s: &Scene,
    e: &mut Entity,
    rng: &mut Rng,
    uses: &mut HashMap<u64, u32>,
    owner: u8,
    dt: F32,
) -> (r: Option<StepEvent>)
    requires
        s.wf(),
    ensures
        gather_spec(s@, old(e)@, old(rng)@, old(uses)@, owner, dt) == (Step {
            e: final(e)@,
            rng: final(rng)@,
            uses: final(uses)@,
            event: r,
        }),
{
    let here: Coord = e.tile();
    // Survival first: if the enemy's near, drop everything and hide in a hut.
    if let Some(event) = seek_shelter(s, e, owner, Faction::Player, dt) {
        release_cave(e, uses);
        return event;
    }
    // Hard leash: if we've somehow strayed past the home radius, abandon any
    // task and march straight back — farmers never leave the village.
    if !near_any(s.home, here, FARMER_HOME_RADIUS) {
        release_cave(e, uses);
        e.target_node = None;
        if let Some(h) = nearest_house(s.home, here) {
            set_out(s.world, e, owner, h);
        }
        e.walk(F32 { bits: FARMER_SPEED }, dt);
        return None;
    }
    if (F32 { bits: ZERO }).lt(e.harvest_timer) {
        return work(s.world, e, rng, uses, dt);
    }
    // Walking somewhere.
    if !e.path_done() {
        e.walk(F32 { bits: FARMER_SPEED }, dt);
        return None;
    }
    settle(s, e, rng, uses, owner, dt);
    None
}

} // verus!
