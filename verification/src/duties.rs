//! What units do with their time: spells of work, huts, the flag, and strolling about.

use vstd::prelude::*;
use crate::behavior::{among, stroll, uses_of, SceneView, StepEvent, PATH_BUDGET};
use crate::chunk::Resource;
use crate::float::F32;
use crate::game::GameView;
use crate::grid::{adjacent_spec, manhattan_spec, near_any_spec, neighbor_spec, within_spec};
use crate::knight::ai_spec;
use crate::pathfind::{
    before_step, bfs_spec, encloses, is_route, is_tile, law_bfs_complete, law_bfs_route,
    law_bfs_shortest, law_path_to, path_end, walks,
};
use crate::refuge::threatened;
use crate::rng::{range_next, range_value};
use crate::survey::{law_nearest, nearest_spec, stand_tile_spec};
use crate::unit::{EntityView, Faction, Job};
use crate::vec2::{Coord, Vec2};
use crate::works::mark;
use crate::world::WorldView;

verus! {

// --- farmers -----------------------------------------------------------------------------

/// A farmer of the player's at home and unafraid.
pub open spec fn at_ease(s: SceneView, e: EntityView) -> bool {
    &&& e.faction == Faction::Player
    &&& e.job == Job::Farmer
    &&& !threatened(s.snap, e.pos, Faction::Player)
    &&& near_any_spec(s.home, e.tile(), 16)
}

pub proof fn lemma_unthreatened(snap: Seq<(Vec2, Faction)>, at: Vec2, f: Faction)
    requires
        !threatened(snap, at, f),
    ensures
        !crate::behavior::enemy_within_spec(snap, at, f, F32 { bits: 0x40c0_0000 }),
{
    let six = F32 { bits: 0x40c0_0000 };
    if crate::behavior::enemy_within_spec(snap, at, f, six) {
        let i = choose|i: int|
            0 <= i < snap.len() && (#[trigger] snap[i]).1 != f
                && snap[i].0.distance_squared_spec(at).le_spec(six.mul_spec(six));
        assert(snap[i].1 != f);
    }
}

/// A spell of work lasts its time, and then brings one thing about: stone from the mine, a
/// unit of the node, or a sapling on the plot. In a mine the next spell begins at once.
pub proof fn law_spell_of_work(
    s: SceneView,
    e: EntityView,
    rng: u64,
    uses: Map<u64, u32>,
    acting: bool,
    under: bool,
    dt: F32,
)
    requires
        at_ease(s, e),
        (F32 { bits: 0 }).lt_spec(e.harvest_timer),
    ensures
        ({
            let step = ai_spec(s, e, rng, uses, acting, under, dt);
            let left = e.harvest_timer.sub_spec(dt);
            let over = left.le_spec(F32 { bits: 0 });
            &&& step.e.pos == e.pos
            &&& !over ==> step.event is None && step.e.harvest_timer == left
                && step.e.target_node == e.target_node && step.e.mine_target == e.mine_target
                && step.uses == uses
            &&& over && e.mine_target is Some ==> ({
                let c = e.mine_target->0;
                if s.world.is_cave(c.0, c.1) && adjacent_spec(e.tile(), c) {
                    &&& step.event == Some(StepEvent::MineStone)
                    &&& step.e.mine_target == Some(c)
                    // Two seconds.
                    &&& step.e.harvest_timer == (F32 { bits: 0x4000_0000 })
                    &&& step.uses == uses
                } else {
                    &&& step.event is None
                    &&& step.e.mine_target is None
                    &&& uses_of(uses, c) > 0 ==> uses_of(step.uses, c) == uses_of(uses, c) - 1
                }
            })
            &&& over && e.mine_target is None && e.target_node is Some ==> ({
                let t = e.target_node->0;
                &&& step.event == Some(
                    if s.world.node(t.0, t.1) is Some {
                        StepEvent::Harvest(t)
                    } else {
                        StepEvent::Plant(t)
                    },
                )
                &&& step.e.target_node is None
                &&& step.e.path.len() == 0
            })
        }),
{
    reveal(ai_spec);
    lemma_unthreatened(s.snap, e.pos, Faction::Player);
    let later = EntityView { repath: e.repath.sub_spec(dt), ..e };
    assert(later.tile() == e.tile());
}

/// A farmer that has come to the node or the plot it was bound for, and stands next to it,
/// begins a spell of two seconds; likewise at the mine it has a place in.
pub proof fn law_farmers_set_to_work(
    s: SceneView,
    e: EntityView,
    rng: u64,
    uses: Map<u64, u32>,
    acting: bool,
    under: bool,
    dt: F32,
)
    requires
        at_ease(s, e),
        !(F32 { bits: 0 }).lt_spec(e.harvest_timer),
        e.path_cursor >= e.path.len(),
    ensures
        ({
            let step = ai_spec(s, e, rng, uses, acting, under, dt);
            &&& (e.mine_target matches Some(c) && s.world.is_cave(c.0, c.1) && adjacent_spec(
                e.tile(),
                c,
            )) ==> step.e.harvest_timer == (F32 { bits: 0x4000_0000 }) && step.e.mine_target
                == e.mine_target && step.event is None && step.uses == uses
            &&& e.mine_target is None && (e.target_node matches Some(t) && adjacent_spec(
                e.tile(),
                t,
            ) && (s.world.node(t.0, t.1) is Some || crate::works::bare_grass(s.world, t.0, t.1)))
                ==> step.e.harvest_timer == (F32 { bits: 0x4000_0000 }) && step.e.target_node
                == e.target_node && step.event is None && step.uses == uses
        }),
{
    reveal(ai_spec);
    lemma_unthreatened(s.snap, e.pos, Faction::Player);
    let later = EntityView { repath: e.repath.sub_spec(dt), ..e };
    assert(later.tile() == e.tile());
}

// --- knights -----------------------------------------------------------------------------

/// A tree stands on the tile.
pub open spec fn wooded(w: WorldView, t: Coord) -> bool {
    w.cell(t.0, t.1) matches Some(c) && c.node is Some && c.node->0.kind == Resource::Wood
}

/// A knight at work goes on with it while its object is there, and then brings it about:
/// the hut, or a way through the node.
pub proof fn law_knights_finish_their_work(
    s: SceneView,
    e: EntityView,
    rng: u64,
    uses: Map<u64, u32>,
    acting: bool,
    dt: F32,
)
    requires
        e.job == Job::Knight,
        s.rally is None,
        (F32 { bits: 0 }).lt_spec(e.harvest_timer),
        match e.build_site {
            Some(t) => wooded(s.world, t),
            None => e.target_node matches Some(t) && s.world.node(t.0, t.1) is Some,
        },
    ensures
        ({
            let step = ai_spec(s, e, rng, uses, acting, false, dt);
            let left = e.harvest_timer.sub_spec(dt);
            &&& step.e.pos == e.pos
            &&& step.e.harvest_timer == left
            &&& if !left.le_spec(F32 { bits: 0 }) {
                &&& step.event is None
                &&& step.e.build_site == e.build_site
                &&& step.e.target_node == e.target_node
            } else {
                match e.build_site {
                    Some(t) => step.event == Some(StepEvent::BuildHut(t))
                        && step.e.build_site is None,
                    None => step.event == Some(StepEvent::Demolish(e.target_node->0))
                        && step.e.target_node is None,
                }
            }
        }),
{
    reveal(ai_spec);
}

/// A tree on order that a knight of the side can stand next to.
pub open spec fn wanted(s: SceneView, owner: u8, t: Coord) -> bool {
    &&& s.hut_orders.contains(t)
    &&& wooded(s.world, t)
    &&& exists|n: Coord| #[trigger] adjacent_spec(t, n) && s.world.walkable_for(owner, n.0, n.1)
}

proof fn lemma_wanted(s: SceneView, owner: u8, t: Coord)
    ensures
        wanted(s, owner, t) == (s.hut_orders.contains(t) && crate::knight::buildable(
            s.world,
            owner,
        )(t)),
{
    crate::refuge::lemma_stand(s.world, owner, t, 0);
    if let Some(n) = stand_tile_spec(s.world, owner, t) {
        assert(adjacent_spec(t, n));
    }
    if wanted(s, owner, t) {
        let n = choose|n: Coord| #[trigger]
            adjacent_spec(t, n) && s.world.walkable_for(owner, n.0, n.1);
        assert(neighbor_spec(t, 0) == Some(n) || neighbor_spec(t, 1) == Some(n) || neighbor_spec(
            t,
            2,
        ) == Some(n) || neighbor_spec(t, 3) == Some(n));
    }
}

/// A knight with nobody to fight sees to the nearest hut on order: next to the tree it begins
/// to build, which takes four seconds; otherwise any new way it takes on that account leads
/// to a tile next to the tree.
pub proof fn law_idle_knights_build(
    s: SceneView,
    e: EntityView,
    rng: u64,
    uses: Map<u64, u32>,
    dt: F32,
    tree: Coord,
)
    requires
        e.job == Job::Knight,
        s.rally is None,
        !(F32 { bits: 0 }).lt_spec(e.harvest_timer),
        e.path_cursor >= e.path.len(),
        forall|i: int| 0 <= i < s.snap.len() ==> (#[trigger] s.snap[i]).1 == e.faction,
        wanted(s, mark(e.faction), tree),
    ensures
        ({
            let step = ai_spec(s, e, rng, uses, false, false, dt);
            exists|t: Coord| #[trigger]
                wanted(s, mark(e.faction), t) && manhattan_spec(t, e.tile()) <= manhattan_spec(
                    tree,
                    e.tile(),
                ) && (adjacent_spec(e.tile(), t) ==> step.e.build_site == Some(t)
                    && step.e.harvest_timer == (F32 { bits: 0x4080_0000 })) && (!adjacent_spec(
                    e.tile(),
                    t,
                ) ==> step.e.build_site == e.build_site && (crate::knight::way_to_spec(
                    s.world,
                    mark(e.faction),
                    e.tile(),
                    t,
                ) is Some ==> adjacent_spec(t, path_end(e.tile(), step.e.path)))) && step.event is None
        }),
{
    let owner = mark(e.faction);
    let here = e.tile();
    lemma_nobody(s.snap, e.faction);
    lemma_wanted(s, owner, tree);
    let will_do = crate::knight::buildable(s.world, owner);
    law_nearest(s.hut_orders, here, will_do);
    let k = s.hut_orders.index_of(tree);
    assert(will_do(s.hut_orders[k]));
    let t = nearest_spec(s.hut_orders, here, will_do)->0;
    lemma_wanted(s, owner, t);
    crate::refuge::lemma_stand(s.world, owner, t, 0);
    let stand = stand_tile_spec(s.world, owner, t)->0;
    law_path_to(s.world, owner, here, stand, PATH_BUDGET as int);
    let later = EntityView { repath: e.repath.sub_spec(dt), ..e };
    assert(later.tile() == here);
    let step = ai_spec(s, e, rng, uses, false, false, dt);
    let idle = EntityView {
        repath: F32 { bits: crate::behavior::REPATH_TIME },
        ..later
    }.set_path(Seq::empty());
    assert(step == crate::knight::off_duty_spec(s, idle, rng, uses, owner, dt)) by {
        reveal(ai_spec);
    }
    assert(idle.tile() == here);
    assert(wanted(s, owner, t));
}

proof fn lemma_nobody(snap: Seq<(crate::vec2::Vec2, Faction)>, f: Faction)
    requires
        forall|i: int| 0 <= i < snap.len() ==> (#[trigger] snap[i]).1 == f,
    ensures
        crate::knight::foes_spec(snap, f).len() == 0,
    decreases snap.len(),
{
    if snap.len() > 0 {
        let rest = snap.drop_last();
        assert forall|i: int| 0 <= i < rest.len() implies (#[trigger] rest[i]).1 == f by {
            assert(snap[i] == rest[i]);
        }
        lemma_nobody(rest, f);
        assert(snap[snap.len() - 1].1 == f);
    }
}

/// A flag calls every knight on duty, in a fight or not: one that is not on its way there
/// already drops what it is about and is on a shortest way to the flag after its step.
/// (The tiles it can reach must be within its budget.)
pub proof fn law_knights_rush_to_the_flag(
    s: SceneView,
    e: EntityView,
    rng: u64,
    uses: Map<u64, u32>,
    acting: bool,
    dt: F32,
    way: Seq<Coord>,
    room: Set<Coord>,
)
    requires
        e.job == Job::Knight,
        s.rally is Some,
        e.path_cursor >= e.path.len() || e.path.last() != s.rally->0.tile_spec(),
        is_route(
            e.tile(),
            way,
            is_tile(s.rally->0.tile_spec()),
            walks(s.world, mark(e.faction)),
        ),
        encloses(room, e.tile(), walks(s.world, mark(e.faction))),
        room.finite(),
        room.len() <= PATH_BUDGET,
    ensures
        ({
            let step = ai_spec(s, e, rng, uses, acting, false, dt);
            let goal = is_tile(s.rally->0.tile_spec());
            let pass = walks(s.world, mark(e.faction));
            &&& is_route(e.tile(), step.e.path, goal, pass)
            &&& path_end(e.tile(), step.e.path) == s.rally->0.tile_spec()
            &&& forall|w: Seq<Coord>| #[trigger]
                is_route(e.tile(), w, goal, pass) ==> step.e.path.len() <= w.len()
            &&& step.e.build_site is None
            &&& step.event is None
        }),
{
    let flag = s.rally->0.tile_spec();
    let pass = walks(s.world, mark(e.faction));
    let goal = is_tile(flag);
    let start = e.tile();
    assert forall|t: Coord| #[trigger] seq![flag].contains(t) == (t == flag) by {
        if t == flag {
            assert(seq![flag][0] == t);
        }
    }
    assert(among(seq![flag]) =~= goal);
    law_bfs_complete(start, PATH_BUDGET as int, goal, pass, way, room);
    law_bfs_route(start, PATH_BUDGET as int, goal, pass);
    let p = bfs_spec(start, PATH_BUDGET as int, goal, pass)->0;
    assert(goal(before_step(start, p, p.len() as int)));
    assert forall|w: Seq<Coord>| #[trigger] is_route(start, w, goal, pass) implies p.len()
        <= w.len() by {
        law_bfs_shortest(start, PATH_BUDGET as int, goal, pass, w);
    }
    let later = EntityView { repath: e.repath.sub_spec(dt), ..e };
    assert(later.tile() == start);
    let step = ai_spec(s, e, rng, uses, acting, false, dt);
    assert(step.e.path == p && step.e.build_site is None && step.event is None) by {
        reveal(ai_spec);
    }
}

// --- strolling ---------------------------------------------------------------------------

/// A stroll leads somewhere else, no more than six tiles off either way, that can be walked
/// on.
pub proof fn law_strolls_are_short(
    w: WorldView,
    owner: u8,
    home: Option<(Seq<Coord>, int)>,
    at: Coord,
    rng: u64,
    n: int,
)
    ensures
        stroll(w, owner, home, at, rng, n).1 matches Some(p) ==> {
            let end = path_end(at, p);
            &&& p.len() > 0
            &&& within_spec(end, at, 6)
            &&& w.walkable_for(owner, end.0, end.1)
            &&& home is Some ==> near_any_spec((home->0).0, end, (home->0).1)
        },
    decreases n,
{
    if n > 0 {
        let dx = range_value(rng, -6, 7);
        let mid = range_next(rng, -6, 7);
        let dy = range_value(mid, -6, 7);
        law_strolls_are_short(w, owner, home, at, range_next(mid, -6, 7), n - 1);
        assert(-6 <= dx <= 6 && -6 <= dy <= 6);
        if let Some(t) = crate::grid::offset_spec(at, dx, dy) {
            law_path_to(w, owner, at, t, crate::behavior::WANDER_BUDGET as int);
            if let Some(h) = home {
                law_bfs_route(
                    at,
                    crate::behavior::WANDER_BUDGET as int,
                    is_tile(t),
                    crate::behavior::leashed(w, owner, h.0, h.1),
                );
                if let Some(p) = crate::behavior::leash_path_spec(
                    w,
                    owner,
                    h.0,
                    h.1,
                    at,
                    t,
                    crate::behavior::WANDER_BUDGET as int,
                ) {
                    assert(is_tile(t)(before_step(at, p, p.len() as int)));
                }
            }
        }
    }
}

/// A stroll goes where the dice fall: to the tile that lies as far off as the first two throws
/// say, where that tile is another one and can be walked to. (The tiles in reach must be
/// within the budget of a stroll.)
pub proof fn law_strolls_go_where_the_dice_fall(
    w: WorldView,
    owner: u8,
    at: Coord,
    rng: u64,
    n: int,
    t: Coord,
    way: Seq<Coord>,
    room: Set<Coord>,
)
    requires
        n > 0,
        t.0 - at.0 == range_value(rng, -6, 7),
        t.1 - at.1 == range_value(range_next(rng, -6, 7), -6, 7),
        t != at,
        w.walkable_for(owner, t.0, t.1),
        is_route(at, way, is_tile(t), walks(w, owner)),
        encloses(room, at, walks(w, owner)),
        room.finite(),
        room.len() <= 512,
    ensures
        stroll(w, owner, None, at, rng, n).1 matches Some(p) && path_end(at, p) == t && p.len()
            <= way.len(),
{
    law_bfs_complete(at, 512, is_tile(t), walks(w, owner), way, room);
    law_bfs_route(at, 512, is_tile(t), walks(w, owner));
    law_bfs_shortest(at, 512, is_tile(t), walks(w, owner), way);
    let p = bfs_spec(at, 512, is_tile(t), walks(w, owner))->0;
    assert(is_tile(t)(before_step(at, p, p.len() as int)));
    let dx = range_value(rng, -6, 7);
    let dy = range_value(range_next(rng, -6, 7), -6, 7);
    assert(crate::grid::offset_spec(at, dx, dy) == Some(t));
}

/// A farmer of the enemy's with no foe near passes its time: it walks where it was going, rests
/// while there is rest to have, and then goes for a stroll, or rests for another eight tenths
/// of a second where there is nowhere to go.
pub proof fn law_the_idle_stroll(
    s: SceneView,
    e: EntityView,
    rng: u64,
    uses: Map<u64, u32>,
    acting: bool,
    under: bool,
    dt: F32,
)
    requires
        e.faction == Faction::Enemy,
        e.job == Job::Farmer,
        !threatened(s.snap, e.pos, Faction::Enemy),
    ensures
        ({
            let step = ai_spec(s, e, rng, uses, acting, under, dt);
            let rest = e.repath.sub_spec(dt);
            let (after, way) = stroll(s.world, 1, None, e.tile(), rng, 12);
            let walked = e.follow_path(F32 { bits: 0x4019_999a }, dt);
            &&& step.event is None && step.uses == uses
            &&& if e.path_cursor < e.path.len() {
                &&& step.e.pos == walked.pos && step.e.path_cursor == walked.path_cursor
                &&& step.e.path == e.path && step.rng == rng
            } else {
                &&& step.e.pos == e.pos
                &&& if (F32 { bits: 0 }).lt_spec(rest) {
                    step.e.path == e.path && step.e.repath == rest && step.rng == rng
                } else {
                    &&& step.rng == after
                    &&& way matches Some(p) ==> step.e.path == p && step.e.path_cursor == 0
                    &&& way is None ==> step.e.path == e.path && step.e.repath == (F32 {
                        bits: 0x3f4c_cccd,
                    })
                }
            }
        }),
{
    reveal(ai_spec);
    lemma_unthreatened(s.snap, e.pos, Faction::Enemy);
    let later = EntityView { repath: e.repath.sub_spec(dt), ..e };
    assert(later.tile() == e.tile());
}

// --- what everyone knows -----------------------------------------------------------------

/// In a tick a side is short of hands with three farmers or fewer, and everyone reasons over
/// where all stood when the tick began; the player's people have the player's orders, and the
/// enemy's none.
pub proof fn law_what_everyone_knows(g: GameView, dt: F32, sim: (i32, i32, i32, i32), k: int)
    ensures
        ({
            let turn = g.turn(dt, sim);
            let ours = g.scene(turn, Faction::Player);
            let theirs = g.scene(turn, Faction::Enemy);
            &&& turn.player_under == (crate::game::farmers_of(g.entities, Faction::Player) <= 3)
            &&& turn.enemy_under == (crate::game::farmers_of(g.entities, Faction::Enemy) <= 3)
            &&& turn.sim == sim && turn.dt == dt
            &&& turn.snap.len() == g.entities.len()
            &&& 0 <= k < g.entities.len() ==> turn.snap[k] == (
                g.entities[k].pos,
                g.entities[k].faction,
            )
            &&& 0 <= k < g.saplings.len() ==> turn.saplings[k] == g.saplings[k].tile
            &&& ours.world == g.world && theirs.world == g.world
            &&& ours.snap == turn.snap && theirs.snap == turn.snap
            &&& ours.home == g.player_house_tiles && theirs.home == g.world.enemy_house_tiles
            &&& ours.rally == g.rally_point && theirs.rally is None
            &&& ours.hut_orders == g.hut_orders && theirs.hut_orders.len() == 0
            &&& ours.huts == g.hut_tiles && theirs.huts == g.hut_tiles
            &&& ours.caves == g.cave_tiles
            &&& ours.pref == match g.gather_priority {
                crate::unit::GatherPriority::Balanced => None,
                crate::unit::GatherPriority::Wood => Some(Resource::Wood),
                crate::unit::GatherPriority::Stone => Some(Resource::Stone),
            }
        }),
{
}

} // verus!
