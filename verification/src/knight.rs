//! Knights: they fight, rally, smash their way through, build huts, and come home
//! to farm when farmers run short. And the step of any unit.

use std::collections::HashMap;
use vstd::prelude::*;
use crate::behavior::{
    among, assault, assault_spec, due, head_for, is_due, seek_shelter, seek_shelter_spec, set_out,
    wander_behavior, wander_spec, Scene, SceneView, Step, StepEvent, HUT_BUILD_TIME,
    KNIGHT_DEMOLISH_TIME, PATH_BUDGET, REPATH_TIME,
};
use crate::chunk::Resource;
use crate::farmer::{gather_behavior, gather_spec};
use crate::float::F32;
use crate::grid::{adjacent, adjacent_spec};
use crate::pathfind::{bfs_spec, decides, opt_view, path_to, path_to_spec, walks};
use crate::rng::Rng;
use crate::survey::{
    anything, choose_wall_tile, choose_wall_tile_spec, nearest_house, nearest_spec, nearest_where,
    stand_tile, stand_tile_spec,
};
use crate::unit::{
    max_hp_for, max_hp_for_spec, owner_of, owner_of_spec, Anim, Entity, EntityView, Faction, Job,
    KNIGHT_SPEED, ZERO,
};
use crate::vec2::{Coord, Vec2};
use crate::world::{World, WorldView};

verus! {

/// A tree stands on the tile.
pub open spec fn is_tree(w: WorldView, t: Coord) -> bool {
    w.node(t.0, t.1) is Some && w.node(t.0, t.1)->0.kind == Resource::Wood
}

pub fn tree_at(world: &World, t: Coord) -> (r: bool)
    requires
        world.wf(),
    ensures
        r == is_tree(world@, t),
{
    match world.node(t.0, t.1) {
        Some(n) => n.kind == Resource::Wood,
        None => false,
    }
}

/// Trees that a knight can stand next to.
pub open spec fn buildable(w: WorldView, owner: u8) -> spec_fn(Coord) -> bool {
    |t: Coord| is_tree(w, t) && stand_tile_spec(w, owner, t) is Some
}

/// The nearest ordered tree a knight can reach to build into a hut.
pub fn pick_hut_order(world: &World, owner: u8, start: Coord, orders: &Vec<Coord>) -> (r: Option<
    Coord,
>)
    requires
        world.wf(),
    ensures
        r == nearest_spec(orders@, start, buildable(world@, owner)),
{
    let will_do = |x: i32, y: i32| -> (b: bool)
        requires
            world.wf(),
        ensures
            b == buildable(world@, owner)((x, y)),
        { tree_at(world, (x, y)) && stand_tile(world, owner, (x, y)).is_some() };
    assert(decides(will_do, buildable(world@, owner)));
    nearest_where(orders, start, will_do)
}

/// The way to a tile beside the one to be worked.
pub open spec fn way_to_spec(w: WorldView, owner: u8, here: Coord, t: Coord) -> Option<Seq<Coord>> {
    match stand_tile_spec(w, owner, t) {
        Some(stand) => path_to_spec(w, owner, here, stand, PATH_BUDGET as int),
        None => None,
    }
}

fn way_to(world: &World, owner: u8, here: Coord, t: Coord) -> (r: Option<Vec<Coord>>)
    requires
        world.wf(),
    ensures
        opt_view(r) == way_to_spec(world@, owner, here, t),
{
    match stand_tile(world, owner, t) {
        Some(stand) => path_to(world, owner, here, stand, PATH_BUDGET),
        None => None,
    }
}

/// Start on the node that blocks the next step, or take the step.
pub open spec fn advance_spec(w: WorldView, e: EntityView, dt: F32) -> EntityView {
    if !e.path_done() && w.node(e.path[e.path_cursor].0, e.path[e.path_cursor].1) is Some {
        let t = e.path[e.path_cursor];
        EntityView {
            target_node: Some(t),
            harvest_timer: F32 { bits: KNIGHT_DEMOLISH_TIME },
            ..e
        }.face(t).set_anim(Anim::Act, dt)
    } else {
        e.walk(F32 { bits: KNIGHT_SPEED }, dt)
    }
}

/// Advance a knight along its path: if the next step is a tree/rock, start
/// hacking it down; otherwise walk the step.
pub fn advance_or_hack(world: &World, e: &mut Entity, dt: F32)
    requires
        world.wf(),
    ensures
        final(e)@ == advance_spec(world@, old(e)@, dt),
{
    if !e.path_done() {
        let t: Coord = e.path[e.path_cursor];
        if world.node(t.0, t.1).is_some() {
            e.target_node = Some(t);
            e.harvest_timer = F32 { bits: KNIGHT_DEMOLISH_TIME };
            e.face(t);
            e.set_anim(Anim::Act, dt);
            return;
        }
    }
    e.walk(F32 { bits: KNIGHT_SPEED }, dt);
}

/// The unit is on a way that ends on the tile.
pub open spec fn bound_for(e: EntityView, t: Coord) -> bool {
    !e.path_done() && e.path.last() == t
}

fn is_bound_for(e: &Entity, t: Coord) -> (r: bool)
    ensures
        r == bound_for(e@, t),
{
    if e.path_done() {
        return false;
    }
    let end: Coord = e.path[e.path.len() - 1];
    end.0 == t.0 && end.1 == t.1
}

/// What a knight in the middle of a job is busy with. Under a rally flag that is
/// nothing but a node that blocks the very next step of the way there.
pub open spec fn busy_with(w: WorldView, e: EntityView, rally: Option<Vec2>) -> Option<Coord> {
    if !(F32 { bits: ZERO }).lt_spec(e.harvest_timer) {
        None
    } else {
        match rally {
            Some(r) => match e.target_node {
                Some(node) => if e.build_site is None && bound_for(e, r.tile_spec())
                    && e.path[e.path_cursor] == node && w.node(node.0, node.1) is Some {
                    Some(node)
                } else {
                    None
                },
                None => None,
            },
            None => match e.build_site {
                Some(site) => if is_tree(w, site) {
                    Some(site)
                } else {
                    None
                },
                None => match e.target_node {
                    Some(node) => if w.node(node.0, node.1) is Some {
                        Some(node)
                    } else {
                        None
                    },
                    None => None,
                },
            },
        }
    }
}

fn find_busy(world: &World, e: &Entity, rally: Option<Vec2>) -> (r: Option<Coord>)
    requires
        world.wf(),
    ensures
        r == busy_with(world@, e@, rally),
{
    if !(F32 { bits: ZERO }).lt(e.harvest_timer) {
        return None;
    }
    match rally {
        Some(r) => {
            if let Some(node) = e.target_node {
                if e.build_site.is_none() && is_bound_for(e, r.tile()) {
                    let next: Coord = e.path[e.path_cursor];
                    if next.0 == node.0 && next.1 == node.1 && world.node(node.0, node.1).is_some() {
                        return Some(node);
                    }
                }
            }
            None
        },
        None => match e.build_site {
            // Turning a tree into a hut.
            Some(site) => if tree_at(world, site) {
                Some(site)
            } else {
                None
            },
            None => match e.target_node {
                Some(node) => if world.node(node.0, node.1).is_some() {
                    Some(node)
                } else {
                    None
                },
                None => None,
            },
        },
    }
}

/// A job that has lost its object is dropped. Under a rally flag everything is: the
/// job, and any way that does not lead to the flag.
pub open spec fn unburdened(e: EntityView, rally: Option<Vec2>) -> EntityView {
    match rally {
        Some(r) => {
            let free = EntityView { build_site: None, target_node: None, ..e };
            if bound_for(e, r.tile_spec()) {
                free
            } else {
                free.set_path(Seq::empty())
            }
        },
        None => if !(F32 { bits: ZERO }).lt_spec(e.harvest_timer) {
            e
        } else if e.build_site is Some {
            EntityView { harvest_timer: F32 { bits: ZERO }, build_site: None, ..e }
        } else {
            EntityView { harvest_timer: F32 { bits: ZERO }, target_node: None, ..e }
        },
    }
}

fn unburden(e: &mut Entity, rally: Option<Vec2>)
    ensures
        final(e)@ == unburdened(old(e)@, rally),
{
    match rally {
        Some(r) => {
            e.build_site = None;
            e.target_node = None;
            if !is_bound_for(e, r.tile()) {
                e.stop();
            }
        },
        None => {
            if (F32 { bits: ZERO }).lt(e.harvest_timer) {
                e.harvest_timer = F32 { bits: ZERO };
                if e.build_site.is_some() {
                    e.build_site = None;
                } else {
                    e.target_node = None;
                }
            }
        },
    }
}

/// The job goes on; at its end the hut stands, or the node is gone.
pub open spec fn labor_spec(e: EntityView, t: Coord, dt: F32) -> (EntityView, Option<StepEvent>) {
    let acted = e.face(t).set_anim(Anim::Act, dt);
    let later = EntityView { harvest_timer: acted.harvest_timer.sub_spec(dt), ..acted };
    if !later.harvest_timer.le_spec(F32 { bits: ZERO }) {
        (later, None)
    } else if e.build_site is Some {
        (EntityView { build_site: None, ..later }, Some(StepEvent::BuildHut(t)))
    } else {
        (EntityView { target_node: None, ..later }, Some(StepEvent::Demolish(t)))
    }
}

fn labor(e: &mut Entity, t: Coord, dt: F32) -> (r: Option<StepEvent>)
    ensures
        (final(e)@, r) == labor_spec(old(e)@, t, dt),
{
    e.face(t);
    e.set_anim(Anim::Act, dt);
    e.harvest_timer = e.harvest_timer.sub(dt);
    if !e.harvest_timer.le(F32 { bits: ZERO }) {
        return None;
    }
    if e.build_site.is_some() {
        e.build_site = None;
        Some(StepEvent::BuildHut(t))
    } else {
        e.target_node = None;
        Some(StepEvent::Demolish(t))
    }
}

/// A route to one of the tiles is looked for when it is time to; without one the
/// knight has none.
pub open spec fn engage_spec(
    w: WorldView,
    e: EntityView,
    owner: u8,
    targets: Seq<Coord>,
) -> EntityView {
    if due(e) {
        let route = if targets.len() > 0 {
            assault_spec(w, owner, e.tile(), targets)
        } else {
            None
        };
        EntityView { repath: F32 { bits: REPATH_TIME }, ..e }.set_path(
            match route {
                Some(p) => p,
                None => Seq::empty(),
            },
        )
    } else {
        e
    }
}

fn engage(world: &World, e: &mut Entity, owner: u8, targets: &Vec<Coord>)
    requires
        world.wf(),
    ensures
        final(e)@ == engage_spec(world@, old(e)@, owner, targets@),
{
    if is_due(e) {
        let here: Coord = e.tile();
        e.repath = F32 { bits: REPATH_TIME };
        if targets.len() > 0 {
            if let Some(p) = assault(world, owner, here, targets) {
                e.set_path(p);
                return;
            }
        }
        e.stop();
    }
}

/// Where the other faction's units stand.
pub open spec fn foes_spec(snap: Seq<(Vec2, Faction)>, faction: Faction) -> Seq<Coord>
    decreases snap.len(),
{
    if snap.len() == 0 {
        Seq::empty()
    } else {
        let before = foes_spec(snap.drop_last(), faction);
        if snap.last().1 != faction {
            before.push(snap.last().0.tile_spec())
        } else {
            before
        }
    }
}

pub fn foes(snap: &Vec<(Vec2, Faction)>, faction: Faction) -> (r: Vec<Coord>)
    ensures
        r@ == foes_spec(snap@, faction),
{
    let mut out: Vec<Coord> = Vec::new();
    let mut i: usize = 0;
    while i < snap.len()
        invariant
            i <= snap.len(),
            out@ == foes_spec(snap@.take(i as int), faction),
        decreases snap.len() - i,
    {
        if snap[i].1 != faction {
            out.push(snap[i].0.tile());
        }
        assert(snap@.take(i + 1).drop_last() =~= snap@.take(i as int));
        i = i + 1;
    }
    assert(snap@.take(i as int) =~= snap@);
    out
}

/// A knight with nothing to fight: build an ordered hut, or potter about.
pub open spec fn off_duty_spec(
    s: SceneView,
    e: EntityView,
    rng: u64,
    uses: Map<u64, u32>,
    owner: u8,
    dt: F32,
) -> Step {
    let order = nearest_spec(s.hut_orders, e.tile(), buildable(s.world, owner));
    let way = way_to_spec(s.world, owner, e.tile(), order->0);
    if order is Some && adjacent_spec(e.tile(), order->0) {
        Step {
            e: EntityView {
                build_site: order,
                harvest_timer: F32 { bits: HUT_BUILD_TIME },
                ..e
            }.face(order->0).set_anim(Anim::Act, dt),
            rng,
            uses,
            event: None,
        }
    } else if order is Some && way is Some {
        Step { e: e.set_path(way->0).set_anim(Anim::Walk, dt), rng, uses, event: None }
    } else {
        let (idler, after) = wander_spec(s.world, e, owner, None, rng, dt);
        Step { e: idler, rng: after, uses, event: None }
    }
}

fn off_duty(s: &Scene, e: &mut Entity, rng: &mut Rng, owner: u8, dt: F32)
    requires
        s.wf(),
    ensures
        forall|uses: Map<u64, u32>| #[trigger]
            off_duty_spec(s@, old(e)@, old(rng)@, uses, owner, dt) == (Step {
                e: final(e)@,
                rng: final(rng)@,
                uses,
                event: None,
            }),
{
    let here: Coord = e.tile();
    if let Some(order) = pick_hut_order(s.world, owner, here, s.hut_orders) {
        if adjacent(here, order) {
            e.build_site = Some(order);
            e.harvest_timer = F32 { bits: HUT_BUILD_TIME };
            e.face(order);
            e.set_anim(Anim::Act, dt);
            return;
        }
        if let Some(p) = way_to(s.world, owner, here, order) {
            e.set_path(p);
            e.set_anim(Anim::Walk, dt);
            return;
        }
    }
    wander_behavior(s.world, e, owner, None, rng, dt);
}

pub open spec fn soldier_spec(
    s: SceneView,
    e: EntityView,
    rng: u64,
    uses: Map<u64, u32>,
    owner: u8,
    acting: bool,
    dt: F32,
) -> Step {
    match busy_with(s.world, e, s.rally) {
        Some(t) => {
            let (later, event) = labor_spec(e, t, dt);
            Step { e: later, rng, uses, event }
        },
        None => {
            let free = unburdened(e, s.rally);
            match s.rally {
                Some(r) => {
                    let bound = engage_spec(s.world, free, owner, seq![r.tile_spec()]);
                    Step { e: advance_spec(s.world, bound, dt), rng, uses, event: None }
                },
                None => if acting {
                    Step { e: free.set_anim(Anim::Act, dt), rng, uses, event: None }
                } else {
                    let bound = engage_spec(
                        s.world,
                        free,
                        owner,
                        foes_spec(s.snap, free.faction),
                    );
                    if bound.path_done() {
                        off_duty_spec(s, bound, rng, uses, owner, dt)
                    } else {
                        Step { e: advance_spec(s.world, bound, dt), rng, uses, event: None }
                    }
                },
            }
        },
    }
}

/// One step of a knight on duty.
pub fn soldier_behavior(
    s: &Scene,
    e: &mut Entity,
    rng: &mut Rng,
    owner: u8,
    acting: bool,
    dt: F32,
) -> (r: Option<StepEvent>)
    requires
        s.wf(),
    ensures
        forall|uses: Map<u64, u32>| #[trigger]
            soldier_spec(s@, old(e)@, old(rng)@, uses, owner, acting, dt) == (Step {
                e: final(e)@,
                rng: final(rng)@,
                uses,
                event: r,
            }),
{
    // Mid-action: building a hut, or hacking a tree/rock we already started.
    if let Some(t) = find_busy(s.world, e, s.rally) {
        return labor(e, t, dt);
    }
    unburden(e, s.rally);
    // A rally flag overrides combat: knights break off whatever they're doing and
    // rush the flag, punching through trees/rocks if that's the only way in. The
    // flag is lifted the instant the group arrives.
    if let Some(r) = s.rally {
        let mut flag: Vec<Coord> = Vec::new();
        flag.push(r.tile());
        assert(flag@ =~= seq![r.tile_spec()]);
        engage(s.world, e, owner, &flag);
        advance_or_hack(s.world, e, dt);
        return None;
    }
    // No rally: stop and fight when a foe is already in range.
    if acting {
        e.set_anim(Anim::Act, dt);
        return None;
    }
    // Target the nearest opponent we can actually *reach* — a multi-target search
    // that will happily route across bridges to another landmass, rather than
    // fixating on a straight-line-nearest foe that's stranded across water.
    let foes: Vec<Coord> = foes(s.snap, e.faction);
    engage(s.world, e, owner, &foes);
    if e.path_done() {
        off_duty(s, e, rng, owner, dt);
        return None;
    }
    advance_or_hack(s.world, e, dt);
    None
}

pub open spec fn retreat_spec(
    w: WorldView,
    e: EntityView,
    owner: u8,
    home: Seq<Coord>,
    dt: F32,
) -> (EntityView, Option<StepEvent>) {
    match nearest_spec(home, e.tile(), anything()) {
        None => (e.set_anim(Anim::Idle, dt), None),
        Some(target) => if adjacent_spec(e.tile(), target) || e.tile() == target {
            let hp = max_hp_for_spec(e.faction, Job::Farmer);
            (
                EntityView {
                    job: Job::Farmer,
                    max_hp: hp,
                    hp,
                    target_node: None,
                    ..e
                }.set_path(Seq::empty()).set_anim(Anim::Idle, dt),
                match choose_wall_tile_spec(w, target) {
                    Some(t) => Some(StepEvent::RaiseWall(t)),
                    None => None,
                },
            )
        } else {
            (head_for(w, e, owner, target).walk(F32 { bits: KNIGHT_SPEED }, dt), None)
        },
    }
}

/// A knight recalled to the village: march home, then convert to a farmer and
/// raise a wall on the settlement's frontier.
pub fn retreat_behavior(world: &World, e: &mut Entity, owner: u8, home: &Vec<Coord>, dt: F32) -> (r:
    Option<StepEvent>)
    requires
        world.wf(),
    ensures
        (final(e)@, r) == retreat_spec(world@, old(e)@, owner, home@, dt),
{
    let here: Coord = e.tile();
    match nearest_house(home, here) {
        None => {
            e.set_anim(Anim::Idle, dt);
            None
        },
        Some(target) => {
            if adjacent(here, target) || (here.0 == target.0 && here.1 == target.1) {
                // Home: become a farmer and raise a wall on the frontier.
                e.job = Job::Farmer;
                e.max_hp = max_hp_for(e.faction, Job::Farmer);
                e.hp = e.max_hp;
                e.stop();
                e.target_node = None;
                e.set_anim(Anim::Idle, dt);
                return match choose_wall_tile(world, target) {
                    Some(t) => Some(StepEvent::RaiseWall(t)),
                    None => None,
                };
            }
            set_out(world, e, owner, target);
            e.walk(F32 { bits: KNIGHT_SPEED }, dt);
            None
        },
    }
}

/// The step of any unit: time passes, and it does what its role asks for.
#[verifier::opaque]
pub open spec fn ai_spec(
    s: SceneView,
    before: EntityView,
    rng: u64,
    uses: Map<u64, u32>,
    acting: bool,
    under_limit: bool,
    dt: F32,
) -> Step {
    let e = EntityView { repath: before.repath.sub_spec(dt), ..before };
    let owner = owner_of_spec(e.faction);
    match e.job {
        Job::Knight => if under_limit {
            let (home_bound, event) = retreat_spec(s.world, e, owner, s.home, dt);
            Step { e: home_bound, rng, uses, event }
        } else {
            soldier_spec(s, e, rng, uses, owner, acting, dt)
        },
        Job::Farmer => match e.faction {
            Faction::Player => gather_spec(s, e, rng, uses, owner, dt),
            Faction::Enemy => match seek_shelter_spec(s, e, owner, Faction::Enemy, dt) {
                Some((fled, event)) => Step { e: fled, rng, uses, event },
                None => {
                    let (idler, after) = wander_spec(s.world, e, owner, None, rng, dt);
                    Step { e: idler, rng: after, uses, event: None }
                },
            },
        },
    }
}

pub fn ai_step(
    s: &Scene,
    e: &mut Entity,
    rng: &mut Rng,
    uses: &mut HashMap<u64, u32>,
    acting: bool,
    under_limit: bool,
    dt: F32,
) -> (r: Option<StepEvent>)
    requires
        s.wf(),
    ensures
        ai_spec(s@, old(e)@, old(rng)@, old(uses)@, acting, under_limit, dt) == (Step {
            e: final(e)@,
            rng: final(rng)@,
            uses: final(uses)@,
            event: r,
        }),
{
    proof {
        reveal(ai_spec);
    }
    e.repath = e.repath.sub(dt);
    let owner: u8 = owner_of(e.faction);
    match e.job {
        Job::Knight => {
            if under_limit {
                retreat_behavior(s.world, e, owner, s.home, dt)
            } else {
                soldier_behavior(s, e, rng, owner, acting, dt)
            }
        },
        Job::Farmer => match e.faction {
            Faction::Player => gather_behavior(s, e, rng, uses, owner, dt),
            Faction::Enemy => {
                // Enemy farmers shelter in their own huts when the player's near.
                if let Some(event) = seek_shelter(s, e, owner, Faction::Enemy, dt) {
                    return event;
                }
                wander_behavior(s.world, e, owner, None, rng, dt);
                None
            },
        },
    }
}

/// A rally flag comes first: a knight at work on a hut lets it be, brings nothing
/// about, and takes the clear route to the flag, if there is one.
pub proof fn law_rally_flag_comes_first(
    s: SceneView,
    e: EntityView,
    rng: u64,
    uses: Map<u64, u32>,
    owner: u8,
    acting: bool,
    dt: F32,
)
    requires
        s.rally is Some,
        e.build_site is Some,
    ensures
        ({
            let flag = s.rally->0.tile_spec();
            let step = soldier_spec(s, e, rng, uses, owner, acting, dt);
            let clear = bfs_spec(e.tile(), PATH_BUDGET as int, among(seq![flag]), walks(s.world, owner));
            &&& step.event is None
            &&& step.e.build_site is None
            &&& step.e.harvest_timer == e.harvest_timer || step.e.harvest_timer == (F32 {
                bits: KNIGHT_DEMOLISH_TIME,
            })
            &&& clear is Some && !bound_for(e, flag) ==> step.e.path == clear->0
        }),
{
}

} // verus!
