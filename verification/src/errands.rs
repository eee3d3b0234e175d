//! How units get about: setting out, walking, hacking through, and coming back.

use vstd::prelude::*;
use crate::behavior::{head_for, shelters, uses_of, SceneView, PATH_BUDGET};
use crate::chores::{
    bounds, in_bounds, lemma_bounds, lemma_first_neighbor, lemma_some_neighbor,
};
use crate::duties::{at_ease, lemma_unthreatened};
use crate::float::F32;
use crate::game::GameView;
use crate::grid::{adjacent_spec, manhattan_spec, near_any_spec};
use crate::knight::ai_spec;
use crate::pathfind::{
    before_step, bfs_spec, encloses, is_route, is_tile, is_walk, law_bfs_complete, law_bfs_route,
    law_bfs_shortest, law_path_to, path_end, walks,
};
use crate::refuge::{lemma_stand, lemma_takes_in, takes_in, threatened};
use crate::survey::{anything, law_nearest, nearest_spec, stand_tile_spec};
use crate::unit::{Anim, EntityView, Faction, Job};
use crate::vec2::{Coord, Vec2};
use crate::works::mark;
use crate::world::WorldView;

verus! {

// --- setting out -------------------------------------------------------------------------

/// There is a way to the tile over tiles of the owner's.
pub open spec fn has_way(w: WorldView, owner: u8, from: Coord, to: Coord) -> bool {
    exists|way: Seq<Coord>| #[trigger] is_route(from, way, is_tile(to), walks(w, owner))
}

/// The path leads to the tile, or next to it where it cannot be walked on, and no way
/// there is shorter.
pub open spec fn leads_to(
    w: WorldView,
    owner: u8,
    from: Coord,
    path: Seq<Coord>,
    to: Coord,
) -> bool {
    &&& is_walk(from, path)
    &&& forall|k: int| 0 <= k < path.len() ==> walks(w, owner)(#[trigger] path[k])
    &&& path_end(from, path) == to || (!walks(w, owner)(to) && adjacent_spec(
        path_end(from, path),
        to,
    ))
    &&& forall|way: Seq<Coord>| #[trigger]
        is_route(from, way, is_tile(to), walks(w, owner)) ==> path.len() <= way.len()
}

/// A unit without a way, or with one that has grown old, gets one to where it heads for, if
/// there is any. (The tiles it can reach must be within its budget.)
pub proof fn law_units_set_out(w: WorldView, e: EntityView, owner: u8, to: Coord, room: Set<Coord>)
    requires
        e.path_cursor >= e.path.len() || e.repath.le_spec(F32 { bits: 0 }),
        has_way(w, owner, e.tile(), to),
        encloses(room, e.tile(), walks(w, owner)),
        room.finite(),
        room.len() <= PATH_BUDGET,
    ensures
        ({
            let after = head_for(w, e, owner, to);
            &&& leads_to(w, owner, e.tile(), after.path, to)
            &&& after.path_cursor == 0
            // Seven tenths of a second.
            &&& after.repath == (F32 { bits: 0x3f33_3333 })
        }),
{
    let from = e.tile();
    let goal = is_tile(to);
    let pass = walks(w, owner);
    let way = choose|way: Seq<Coord>| #[trigger] is_route(from, way, goal, pass);
    law_bfs_complete(from, PATH_BUDGET as int, goal, pass, way, room);
    law_path_to(w, owner, from, to, PATH_BUDGET as int);
    assert forall|way: Seq<Coord>| #[trigger] is_route(from, way, goal, pass) implies head_for(
        w,
        e,
        owner,
        to,
    ).path.len() <= way.len() by {
        law_bfs_shortest(from, PATH_BUDGET as int, goal, pass, way);
    }
}

/// A unit on a way that is not old yet keeps to it.
pub proof fn law_units_stay_on_their_way(w: WorldView, e: EntityView, owner: u8, to: Coord)
    requires
        e.path_cursor < e.path.len(),
        !e.repath.le_spec(F32 { bits: 0 }),
    ensures
        head_for(w, e, owner, to) == e,
{
}

/// A house of the list that no other is nearer than.
pub open spec fn nearest_home(home: Seq<Coord>, from: Coord, h: Coord) -> bool {
    &&& home.contains(h)
    &&& forall|i: int|
        0 <= i < home.len() ==> manhattan_spec(h, from) <= manhattan_spec(
            #[trigger] home[i],
            from,
        )
}

proof fn lemma_nearest_home(home: Seq<Coord>, from: Coord)
    requires
        home.len() > 0,
    ensures
        nearest_spec(home, from, anything()) is Some,
        nearest_home(home, from, nearest_spec(home, from, anything())->0),
{
    law_nearest(home, from, anything());
    assert(anything()(home[0]));
    let h = nearest_spec(home, from, anything())->0;
    assert forall|i: int| 0 <= i < home.len() implies manhattan_spec(h, from) <= manhattan_spec(
        #[trigger] home[i],
        from,
    ) by {
        assert(anything()(home[i]));
    }
}

/// A farmer that has strayed more than sixteen tiles from every house drops what it is about
/// and makes for the nearest house.
pub proof fn law_strays_come_back(
    s: SceneView,
    e: EntityView,
    rng: u64,
    uses: Map<u64, u32>,
    acting: bool,
    under: bool,
    dt: F32,
    room: Set<Coord>,
)
    requires
        e.faction == Faction::Player,
        e.job == Job::Farmer,
        !threatened(s.snap, e.pos, Faction::Player),
        !near_any_spec(s.home, e.tile(), 16),
        s.home.len() > 0,
        e.path_cursor >= e.path.len(),
        forall|h: Coord| #[trigger] s.home.contains(h) ==> has_way(s.world, 0, e.tile(), h),
        encloses(room, e.tile(), walks(s.world, 0)),
        room.finite(),
        room.len() <= PATH_BUDGET,
    ensures
        ({
            let step = ai_spec(s, e, rng, uses, acting, under, dt);
            &&& step.e.mine_target is None && step.e.target_node is None && step.event is None
            &&& (e.mine_target matches Some(c) && uses_of(uses, c) > 0) ==> uses_of(
                step.uses,
                e.mine_target->0,
            ) == uses_of(uses, e.mine_target->0) - 1
            &&& exists|h: Coord| #[trigger]
                nearest_home(s.home, e.tile(), h) && leads_to(
                    s.world,
                    0,
                    e.tile(),
                    step.e.path,
                    h,
                )
        }),
{
    let from = e.tile();
    let later = EntityView { repath: e.repath.sub_spec(dt), ..e };
    assert(later.tile() == from);
    lemma_nearest_home(s.home, from);
    let h = nearest_spec(s.home, from, anything())->0;
    let free = EntityView { mine_target: None, target_node: None, ..later };
    assert(free.tile() == from);
    assert(s.home.contains(h));
    law_units_set_out(s.world, free, 0, h, room);
    lemma_unthreatened(s.snap, e.pos, Faction::Player);
    let step = ai_spec(s, e, rng, uses, acting, under, dt);
    assert(step.e.path == head_for(s.world, free, 0, h).path && step.e.mine_target is None
        && step.e.target_node is None && step.event is None && step.uses
        == crate::behavior::released(uses, e.mine_target)) by {
        reveal(ai_spec);
    }
    assert(nearest_home(s.home, from, h));
}

/// A knight that is called home sets out for the nearest house.
pub proof fn law_knights_set_out_for_home(
    s: SceneView,
    e: EntityView,
    rng: u64,
    uses: Map<u64, u32>,
    acting: bool,
    dt: F32,
    room: Set<Coord>,
)
    requires
        e.job == Job::Knight,
        s.home.len() > 0,
        e.path_cursor >= e.path.len(),
        forall|h: Coord| #[trigger]
            s.home.contains(h) ==> has_way(s.world, mark(e.faction), e.tile(), h)
                && manhattan_spec(e.tile(), h) > 1,
        encloses(room, e.tile(), walks(s.world, mark(e.faction))),
        room.finite(),
        room.len() <= PATH_BUDGET,
    ensures
        ({
            let step = ai_spec(s, e, rng, uses, acting, true, dt);
            &&& step.event is None && step.e.job == Job::Knight
            &&& exists|h: Coord| #[trigger]
                nearest_home(s.home, e.tile(), h) && leads_to(
                    s.world,
                    mark(e.faction),
                    e.tile(),
                    step.e.path,
                    h,
                )
        }),
{
    let from = e.tile();
    let owner = mark(e.faction);
    let later = EntityView { repath: e.repath.sub_spec(dt), ..e };
    assert(later.tile() == from);
    lemma_nearest_home(s.home, from);
    let h = nearest_spec(s.home, from, anything())->0;
    assert(s.home.contains(h));
    law_units_set_out(s.world, later, owner, h, room);
    let step = ai_spec(s, e, rng, uses, acting, true, dt);
    assert(step.e.path == head_for(s.world, later, owner, h).path && step.e.job == Job::Knight
        && step.event is None) by {
        reveal(ai_spec);
    }
    assert(nearest_home(s.home, from, h));
}

/// A farmer in danger sets out for shelter: for a tile next to a hut that takes it in and than
/// which none that does is nearer.
pub proof fn law_farmers_set_out_for_shelter(
    s: SceneView,
    e: EntityView,
    rng: u64,
    uses: Map<u64, u32>,
    acting: bool,
    under: bool,
    dt: F32,
    hut: Coord,
    room: Set<Coord>,
)
    requires
        e.job == Job::Farmer,
        threatened(s.snap, e.pos, e.faction),
        takes_in(s, e.faction, hut),
        e.path_cursor >= e.path.len(),
        forall|t: Coord, n: Coord| #[trigger]
            takes_in(s, e.faction, t) && #[trigger] adjacent_spec(t, n) ==> !adjacent_spec(
                e.tile(),
                t,
            ) && (s.world.walkable_for(mark(e.faction), n.0, n.1) ==> has_way(
                s.world,
                mark(e.faction),
                e.tile(),
                n,
            )),
        encloses(room, e.tile(), walks(s.world, mark(e.faction))),
        room.finite(),
        room.len() <= PATH_BUDGET,
    ensures
        ({
            let step = ai_spec(s, e, rng, uses, acting, under, dt);
            &&& step.event is None
            &&& exists|t: Coord, n: Coord| #[trigger]
                takes_in(s, e.faction, t) && #[trigger] adjacent_spec(t, n) && leads_to(
                    s.world,
                    mark(e.faction),
                    e.tile(),
                    step.e.path,
                    n,
                ) && manhattan_spec(t, e.tile()) <= manhattan_spec(hut, e.tile())
        }),
{
    let from = e.tile();
    let owner = mark(e.faction);
    let later = EntityView { repath: e.repath.sub_spec(dt), ..e };
    assert(later.tile() == from);
    let six = F32 { bits: 0x40c0_0000 };
    assert(crate::behavior::enemy_within_spec(s.snap, e.pos, e.faction, six));
    let fit = shelters(s.world, owner);
    lemma_takes_in(s, e.faction, hut);
    law_nearest(s.huts, from, fit);
    let k = s.huts.index_of(hut);
    assert(fit(s.huts[k]));
    let t = nearest_spec(s.huts, from, fit)->0;
    lemma_takes_in(s, e.faction, t);
    lemma_stand(s.world, owner, t, 0);
    let n = stand_tile_spec(s.world, owner, t)->0;
    assert(takes_in(s, e.faction, t) && adjacent_spec(t, n));
    assert(manhattan_spec(t, from) == manhattan_spec(from, t));
    law_units_set_out(s.world, later, owner, n, room);
    let step = ai_spec(s, e, rng, uses, acting, under, dt);
    assert(step.e.path == head_for(s.world, later, owner, n).path && step.event is None) by {
        reveal(ai_spec);
    }
}

/// A farmer in danger with no hut to take it in goes on as if there were none.
pub proof fn law_nowhere_to_hide(
    s: SceneView,
    e: EntityView,
    rng: u64,
    uses: Map<u64, u32>,
    acting: bool,
    under: bool,
    dt: F32,
)
    requires
        e.job == Job::Farmer,
        forall|t: Coord| !#[trigger] takes_in(s, e.faction, t),
    ensures
        ({
            let peace = SceneView { snap: Seq::empty(), ..s };
            ai_spec(s, e, rng, uses, acting, under, dt) == ai_spec(
                peace,
                e,
                rng,
                uses,
                acting,
                under,
                dt,
            )
        }),
{
    let peace = SceneView { snap: Seq::empty(), ..s };
    let fit = shelters(s.world, mark(e.faction));
    law_nearest(s.huts, e.tile(), fit);
    if let Some(t) = nearest_spec(s.huts, e.tile(), fit) {
        lemma_takes_in(s, e.faction, t);
    }
    let later = EntityView { repath: e.repath.sub_spec(dt), ..e };
    assert(later.tile() == e.tile());
    reveal(ai_spec);
}

// --- on the way --------------------------------------------------------------------------

/// A knight on its way, to a foe or to the flag, walks 2.9 tiles a second; a tree or a rock in
/// its way it hacks at for five seconds before it goes on.
pub proof fn law_knights_hack_their_way_through(
    s: SceneView,
    e: EntityView,
    rng: u64,
    uses: Map<u64, u32>,
    acting: bool,
    dt: F32,
)
    requires
        e.job == Job::Knight,
        !(F32 { bits: 0 }).lt_spec(e.harvest_timer),
        e.path_cursor < e.path.len(),
        !e.repath.sub_spec(dt).le_spec(F32 { bits: 0 }),
        s.rally is None ==> !acting,
        s.rally matches Some(r) ==> e.path.last() == r.tile_spec(),
    ensures
        ({
            let step = ai_spec(s, e, rng, uses, acting, false, dt);
            let t = e.path[e.path_cursor as int];
            let walked = e.follow_path(F32 { bits: 0x4039_999a }, dt);
            &&& step.event is None && step.uses == uses && step.rng == rng
            &&& step.e.path == e.path
            &&& if s.world.node(t.0, t.1) is Some {
                &&& step.e.target_node == Some(t)
                &&& step.e.harvest_timer == (F32 { bits: 0x40a0_0000 })
                &&& step.e.pos == e.pos && step.e.path_cursor == e.path_cursor
                &&& step.e.anim == Anim::Act
            } else {
                &&& step.e.pos == walked.pos && step.e.path_cursor == walked.path_cursor
                &&& step.e.anim == Anim::Walk
            }
        }),
{
    reveal(ai_spec);
}

/// A knight that strikes stands still, unless the flag is up.
pub proof fn law_fighters_stand_their_ground(
    s: SceneView,
    e: EntityView,
    rng: u64,
    uses: Map<u64, u32>,
    dt: F32,
)
    requires
        e.job == Job::Knight,
        s.rally is None,
    ensures
        ({
            let step = ai_spec(s, e, rng, uses, true, false, dt);
            &&& step.e.pos == e.pos && step.e.path == e.path
            &&& step.e.anim == Anim::Act
            &&& step.uses == uses && step.rng == rng
        }),
{
    reveal(ai_spec);
}

/// A farmer at ease that is bound for somewhere walks there, 2.4 tiles a second, and keeps in
/// mind what for.
pub proof fn law_farmers_walk(
    s: SceneView,
    e: EntityView,
    rng: u64,
    uses: Map<u64, u32>,
    acting: bool,
    under: bool,
    dt: F32,
)
    requires
        at_ease(s, e),
        !(F32 { bits: 0 }).lt_spec(e.harvest_timer),
        e.path_cursor < e.path.len(),
    ensures
        ({
            let step = ai_spec(s, e, rng, uses, acting, under, dt);
            let walked = e.follow_path(F32 { bits: 0x4019_999a }, dt);
            &&& step.e.pos == walked.pos && step.e.path_cursor == walked.path_cursor
            &&& step.e.path == e.path
            &&& step.e.target_node == e.target_node && step.e.mine_target == e.mine_target
            &&& step.event is None && step.uses == uses && step.rng == rng
        }),
{
    reveal(ai_spec);
    lemma_unthreatened(s.snap, e.pos, Faction::Player);
    let later = EntityView { repath: e.repath.sub_spec(dt), ..e };
    assert(later.tile() == e.tile());
}

/// A farmer with a place in a mine goes there: along a shortest way that never leaves the
/// village, to a tile next to the mine, and the place stays its own. (Every tile of the
/// village next to the mine must be one that it can get to within its budget.)
pub proof fn law_miners_go_to_their_mine(
    s: SceneView,
    e: EntityView,
    rng: u64,
    uses: Map<u64, u32>,
    acting: bool,
    under: bool,
    dt: F32,
    stand: Coord,
    room: Set<Coord>,
)
    requires
        at_ease(s, e),
        !(F32 { bits: 0 }).lt_spec(e.harvest_timer),
        e.path_cursor >= e.path.len(),
        e.mine_target is Some,
        s.world.is_cave((e.mine_target->0).0, (e.mine_target->0).1),
        !adjacent_spec(e.tile(), e.mine_target->0),
        adjacent_spec(e.mine_target->0, stand) && in_bounds(s.world, s.home, stand),
        forall|n: Coord| #[trigger]
            adjacent_spec(e.mine_target->0, n) && in_bounds(s.world, s.home, n) ==> exists|
                way: Seq<Coord>,
            | #[trigger]
                is_route(e.tile(), way, is_tile(n), bounds(s.world, s.home)),
        encloses(room, e.tile(), bounds(s.world, s.home)),
        room.finite(),
        room.len() <= PATH_BUDGET,
    ensures
        ({
            let step = ai_spec(s, e, rng, uses, acting, under, dt);
            let end = path_end(e.tile(), step.e.path);
            &&& adjacent_spec(e.mine_target->0, end) && in_bounds(s.world, s.home, end)
            &&& is_route(e.tile(), step.e.path, is_tile(end), bounds(s.world, s.home))
            &&& step.e.mine_target == e.mine_target && step.uses == uses
            &&& step.event is None
        }),
{
    let c = e.mine_target->0;
    let from = e.tile();
    let pass = bounds(s.world, s.home);
    let fit = crate::behavior::leashed(s.world, 0, s.home, 16);
    lemma_bounds(s.world, s.home);
    lemma_first_neighbor(c, 0, fit);
    lemma_some_neighbor(c, stand, fit);
    let n = crate::behavior::berth_spec(s.world, 0, s.home, c)->0;
    assert(adjacent_spec(c, n) && in_bounds(s.world, s.home, n));
    let way = choose|way: Seq<Coord>| #[trigger] is_route(from, way, is_tile(n), pass);
    law_bfs_complete(from, PATH_BUDGET as int, is_tile(n), pass, way, room);
    law_bfs_route(from, PATH_BUDGET as int, is_tile(n), pass);
    let p = bfs_spec(from, PATH_BUDGET as int, is_tile(n), pass)->0;
    assert(is_tile(n)(before_step(from, p, p.len() as int)));
    lemma_unthreatened(s.snap, e.pos, Faction::Player);
    let later = EntityView { repath: e.repath.sub_spec(dt), ..e };
    assert(later.tile() == from);
    let step = ai_spec(s, e, rng, uses, acting, under, dt);
    assert(step.e.path == p && step.e.mine_target == e.mine_target && step.uses == uses
        && step.event is None) by {
        reveal(ai_spec);
    }
}

// --- the flag ----------------------------------------------------------------------------

/// A knight of the player's within two and a half tiles of the flag.
pub open spec fn at_the_flag(e: EntityView, flag: Vec2) -> bool {
    let reach = F32 { bits: 0x4020_0000 };
    &&& e.faction == Faction::Player
    &&& e.job == Job::Knight
    &&& e.pos.distance_squared_spec(flag).le_spec(reach.mul_spec(reach))
}

/// The flag stands until the first knight of the player's is there, and nothing else changes
/// when it comes down.
pub proof fn law_flag_stands_until_reached(g: GameView, flag: Vec2)
    requires
        g.rally_point == Some(flag),
    ensures
        g.rallied().rally_point is None == (exists|i: int|
            0 <= i < g.entities.len() && at_the_flag(#[trigger] g.entities[i], flag)),
        g.rallied().rally_point is Some ==> g.rallied() == g,
        g.rallied() == (GameView { rally_point: g.rallied().rally_point, ..g }),
{
    if g.rallied().rally_point is None {
        let i = choose|i: int|
            0 <= i < g.entities.len() && (#[trigger] g.entities[i]).faction == Faction::Player
                && g.entities[i].job == Job::Knight
                && g.entities[i].pos.distance_squared_spec(flag).le_spec(
                crate::turn::arrive_squared(),
            );
        assert(at_the_flag(g.entities[i], flag));
    }
}

} // verus!
