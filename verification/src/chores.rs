//! What an idle farmer turns to: the nearest node, or else a mine, or else a bare plot.

use vstd::prelude::*;
use crate::behavior::{
    beside_node, beside_plot, claimable, enemy_within_spec, leashed, uses_of, SceneView,
    FARMER_HOME_RADIUS, PATH_BUDGET,
};
use crate::chunk::Resource;
use crate::float::F32;
use crate::grid::{adjacent_spec, manhattan_spec, near_any_spec, neighbor_spec};
use crate::knight::ai_spec;
use crate::pathfind::{
    before_step, bfs_spec, encloses, is_route, law_bfs_complete, law_bfs_route, law_bfs_shortest,
};
use crate::survey::{first_neighbor, has_node, law_nearest, plantable};
use crate::unit::{EntityView, Faction, Job, ZERO};
use crate::vec2::Coord;
use crate::world::WorldView;

verus! {

/// The first neighbour that will do is a neighbour, and will do; there is one unless none
/// of them will.
pub proof fn lemma_first_neighbor(t: Coord, i: int, will_do: spec_fn(Coord) -> bool)
    requires
        0 <= i <= 4,
    ensures
        first_neighbor(t, i, 4, will_do) matches Some(c) ==> adjacent_spec(t, c) && will_do(c),
        first_neighbor(t, i, 4, will_do) is None ==> forall|k: int|
            i <= k < 4 ==> ((#[trigger] neighbor_spec(t, k)) matches Some(n) ==> !will_do(n)),
    decreases 4 - i,
{
    if i < 4 {
        lemma_first_neighbor(t, i + 1, will_do);
    }
}

/// An adjacent tile is one of the four neighbours.
proof fn lemma_adjacent(t: Coord, n: Coord)
    requires
        adjacent_spec(t, n),
    ensures
        exists|k: int| 0 <= k < 4 && #[trigger] neighbor_spec(t, k) == Some(n),
{
    assert(neighbor_spec(t, 0) == Some(n) || neighbor_spec(t, 1) == Some(n) || neighbor_spec(t, 2)
        == Some(n) || neighbor_spec(t, 3) == Some(n));
}

pub proof fn lemma_some_neighbor(t: Coord, n: Coord, will_do: spec_fn(Coord) -> bool)
    requires
        adjacent_spec(t, n),
        will_do(n),
    ensures
        first_neighbor(t, 0, 4, will_do) is Some,
{
    lemma_first_neighbor(t, 0, will_do);
    lemma_adjacent(t, n);
}

/// A tile on which one of the player's farmers may stand: within sixteen tiles of a
/// house, and not barred.
pub open spec fn in_bounds(w: WorldView, home: Seq<Coord>, t: Coord) -> bool {
    near_any_spec(home, t, 16) && w.walkable_for(0, t.0, t.1)
}

pub open spec fn bounds(w: WorldView, home: Seq<Coord>) -> spec_fn(Coord) -> bool {
    |t: Coord| in_bounds(w, home, t)
}

/// A node of the kind, or of any kind, stands next to the tile.
pub open spec fn node_beside(w: WorldView, kind: Option<Resource>, t: Coord) -> bool {
    exists|n: Coord| #[trigger]
        adjacent_spec(t, n) && w.node(n.0, n.1) is Some && (kind is None || w.node(n.0, n.1)->0.kind
            == kind->0)
}

/// Tiles from which a node can be worked.
pub open spec fn work_tiles(w: WorldView, home: Seq<Coord>, kind: Option<Resource>) -> spec_fn(
    Coord,
) -> bool {
    |t: Coord| in_bounds(w, home, t) && node_beside(w, kind, t)
}

/// No farmer of the village could stand next to a node.
pub open spec fn nothing_to_gather(w: WorldView, home: Seq<Coord>) -> bool {
    forall|t: Coord| #[trigger] in_bounds(w, home, t) ==> !node_beside(w, None, t)
}

/// A mine of the player's with a free place that a farmer can stand next to.
pub open spec fn has_room(s: SceneView, uses: Map<u64, u32>, c: Coord) -> bool {
    &&& s.caves.contains(c)
    &&& s.world.is_cave(c.0, c.1)
    &&& uses_of(uses, c) < 4
    &&& near_any_spec(s.home, c, 17)
    &&& exists|n: Coord| #[trigger] adjacent_spec(c, n) && in_bounds(s.world, s.home, n)
}

/// A farmer of the player's with nothing in hand, at home and unafraid.
pub open spec fn is_free(s: SceneView, e: EntityView) -> bool {
    &&& e.faction == Faction::Player
    &&& e.job == Job::Farmer
    &&& !enemy_within_spec(s.snap, e.pos, Faction::Player, F32 { bits: 0x40c0_0000 })
    &&& near_any_spec(s.home, e.tile(), 16)
    &&& !(F32 { bits: ZERO }).lt_spec(e.harvest_timer)
    &&& e.path_cursor >= e.path.len()
    &&& e.mine_target is None
    &&& e.target_node is None
}

pub proof fn lemma_bounds(w: WorldView, home: Seq<Coord>)
    ensures
        leashed(w, 0, home, FARMER_HOME_RADIUS as int) == bounds(w, home),
{
    assert(leashed(w, 0, home, FARMER_HOME_RADIUS as int) =~= bounds(w, home));
}

proof fn lemma_node_beside(w: WorldView, kind: Option<Resource>, t: Coord)
    ensures
        first_neighbor(t, 0, 4, has_node(w, kind)) is Some == node_beside(w, kind, t),
{
    lemma_first_neighbor(t, 0, has_node(w, kind));
    if node_beside(w, kind, t) {
        let n = choose|n: Coord| #[trigger]
            adjacent_spec(t, n) && w.node(n.0, n.1) is Some && (kind is None || w.node(
                n.0,
                n.1,
            )->0.kind == kind->0);
        lemma_some_neighbor(t, n, has_node(w, kind));
    }
    if let Some(c) = first_neighbor(t, 0, 4, has_node(w, kind)) {
        assert(adjacent_spec(t, c));
    }
}

proof fn lemma_work_tiles(w: WorldView, home: Seq<Coord>, kind: Option<Resource>)
    ensures
        beside_node(w, 0, home, kind) == work_tiles(w, home, kind),
{
    assert forall|t: Coord| #[trigger]
        first_neighbor(t, 0, 4, has_node(w, kind)) is Some == node_beside(w, kind, t) by {
        lemma_node_beside(w, kind, t);
    }
    assert(beside_node(w, 0, home, kind) =~= work_tiles(w, home, kind));
}

proof fn lemma_claimable(s: SceneView, uses: Map<u64, u32>, c: Coord)
    ensures
        (s.caves.contains(c) && claimable(s.world, 0, s.home, uses)(c)) == has_room(s, uses, c),
{
    let stand = leashed(s.world, 0, s.home, FARMER_HOME_RADIUS as int);
    lemma_first_neighbor(c, 0, stand);
    if let Some(n) = first_neighbor(c, 0, 4, stand) {
        assert(adjacent_spec(c, n) && in_bounds(s.world, s.home, n));
    }
    if has_room(s, uses, c) {
        let n = choose|n: Coord| #[trigger] adjacent_spec(c, n) && in_bounds(s.world, s.home, n);
        lemma_some_neighbor(c, n, stand);
    }
}

/// What a free farmer finds no node for: no search turns one up.
proof fn lemma_no_plan(s: SceneView, here: Coord, kind: Option<Resource>)
    requires
        nothing_to_gather(s.world, s.home),
    ensures
        crate::behavior::plan_gather_kind_spec(s.world, 0, here, kind, s.home) is None,
{
    let goal = beside_node(s.world, 0, s.home, kind);
    let pass = leashed(s.world, 0, s.home, FARMER_HOME_RADIUS as int);
    law_bfs_route(here, PATH_BUDGET as int, goal, pass);
    if let Some(p) = bfs_spec(here, PATH_BUDGET as int, goal, pass) {
        let t = before_step(here, p, p.len() as int);
        assert(goal(t));
        lemma_node_beside(s.world, kind, t);
        let n = choose|n: Coord| #[trigger]
            adjacent_spec(t, n) && s.world.node(n.0, n.1) is Some && (kind is None || s.world.node(
                n.0,
                n.1,
            )->0.kind == kind->0);
        assert(adjacent_spec(t, n));
        assert(in_bounds(s.world, s.home, t));
    }
}

/// Where there is nothing to gather, who goes mining: with stone preferred everyone, with
/// wood preferred nobody, and otherwise those on tiles whose coordinates add up to an even
/// number. They go to the nearest mine with room, and take one of its places.
pub proof fn law_who_goes_mining(
    s: SceneView,
    e: EntityView,
    rng: u64,
    uses: Map<u64, u32>,
    acting: bool,
    under_limit: bool,
    dt: F32,
)
    requires
        is_free(s, e),
        nothing_to_gather(s.world, s.home),
    ensures
        ({
            let step = ai_spec(s, e, rng, uses, acting, under_limit, dt);
            let even = (e.tile().0 + e.tile().1) % 2 == 0;
            &&& step.e.mine_target matches Some(c) ==> has_room(s, uses, c) && (forall|d: Coord| #[trigger]
                has_room(s, uses, d) ==> manhattan_spec(c, e.tile()) <= manhattan_spec(d, e.tile()))
                && uses_of(step.uses, c) == uses_of(uses, c) + 1 && step.e.target_node is None
            &&& step.e.mine_target is None ==> step.uses == uses
            &&& (exists|c: Coord| #[trigger] has_room(s, uses, c)) ==> (step.e.mine_target is Some
                == match s.pref {
                Some(Resource::Stone) => true,
                Some(Resource::Wood) => false,
                None => even,
            })
        }),
{
    reveal(ai_spec);
    let here = e.tile();
    lemma_no_plan(s, here, s.pref);
    lemma_no_plan(s, here, None);
    let later = EntityView { repath: e.repath.sub_spec(dt), ..e };
    assert(later.tile() == here);
    let will_do = claimable(s.world, 0, s.home, uses);
    law_nearest(s.caves, here, will_do);
    let claim = crate::behavior::claim_spec(s, 0, here, uses);
    assert forall|d: Coord| #[trigger] has_room(s, uses, d) implies claim is Some && manhattan_spec(
        claim->0,
        here,
    ) <= manhattan_spec(d, here) by {
        lemma_claimable(s, uses, d);
        let k = s.caves.index_of(d);
        assert(will_do(s.caves[k]));
    }
    if claim is Some {
        lemma_claimable(s, uses, claim->0);
    }
}

/// Of two farmers side by side, both free, with a mine in reach and no preference, one
/// goes mining and the other does not.
pub proof fn law_balance_splits_the_hands(
    s: SceneView,
    a: EntityView,
    b: EntityView,
    rng: u64,
    uses: Map<u64, u32>,
    acting: bool,
    under_limit: bool,
    dt: F32,
    c: Coord,
)
    requires
        is_free(s, a),
        is_free(s, b),
        adjacent_spec(a.tile(), b.tile()),
        nothing_to_gather(s.world, s.home),
        s.pref is None,
        has_room(s, uses, c),
    ensures
        ai_spec(s, a, rng, uses, acting, under_limit, dt).e.mine_target is Some != ai_spec(
            s,
            b,
            rng,
            uses,
            acting,
            under_limit,
            dt,
        ).e.mine_target is Some,
{
    lemma_parity(a.tile(), b.tile());
    assert(has_room(s, uses, c));
    assert(ai_spec(s, a, rng, uses, acting, under_limit, dt).e.mine_target is Some == ((a.tile().0
        + a.tile().1) % 2 == 0)) by {
        law_who_goes_mining(s, a, rng, uses, acting, under_limit, dt);
    }
    assert(ai_spec(s, b, rng, uses, acting, under_limit, dt).e.mine_target is Some == ((b.tile().0
        + b.tile().1) % 2 == 0)) by {
        law_who_goes_mining(s, b, rng, uses, acting, under_limit, dt);
    }
}

proof fn lemma_parity(a: Coord, b: Coord)
    requires
        adjacent_spec(a, b),
    ensures
        ((a.0 + a.1) % 2 == 0) != ((b.0 + b.1) % 2 == 0),
{
    assert(b.0 + b.1 == a.0 + a.1 + 1 || b.0 + b.1 == a.0 + a.1 - 1);
}

/// The tiles a unit has still to walk.
pub open spec fn ahead(e: EntityView) -> Seq<Coord> {
    if e.path_cursor >= e.path.len() {
        Seq::empty()
    } else {
        e.path.skip(e.path_cursor)
    }
}

/// The farmer is off to a node of the kind, on a shortest way within bounds to a tile next
/// to one; or at work on it where it already stands next to it.
pub open spec fn gathers(
    s: SceneView,
    e: EntityView,
    after: EntityView,
    kind: Option<Resource>,
) -> bool {
    let goal = work_tiles(s.world, s.home, kind);
    let pass = bounds(s.world, s.home);
    let path = ahead(after);
    &&& after.target_node is Some
    &&& after.mine_target is None
    &&& s.world.node((after.target_node->0).0, (after.target_node->0).1) is Some
    &&& kind is Some ==> s.world.node(
        (after.target_node->0).0,
        (after.target_node->0).1,
    )->0.kind == kind->0
    &&& is_route(e.tile(), path, goal, pass)
    &&& adjacent_spec(before_step(e.tile(), path, path.len() as int), after.target_node->0)
    &&& forall|w: Seq<Coord>| #[trigger] is_route(e.tile(), w, goal, pass) ==> path.len() <= w.len()
}

proof fn lemma_plan(
    s: SceneView,
    e: EntityView,
    kind: Option<Resource>,
    way: Seq<Coord>,
    room: Set<Coord>,
)
    requires
        is_route(e.tile(), way, work_tiles(s.world, s.home, kind), bounds(s.world, s.home)),
        encloses(room, e.tile(), bounds(s.world, s.home)),
        room.finite(),
        room.len() <= PATH_BUDGET,
    ensures
        ({
            let goal = work_tiles(s.world, s.home, kind);
            let pass = bounds(s.world, s.home);
            let plan = crate::behavior::plan_gather_kind_spec(s.world, 0, e.tile(), kind, s.home);
            &&& plan is Some
            &&& is_route(e.tile(), (plan->0).0, goal, pass)
            &&& adjacent_spec(
                before_step(e.tile(), (plan->0).0, (plan->0).0.len() as int),
                (plan->0).1,
            )
            &&& has_node(s.world, kind)((plan->0).1)
            &&& forall|w: Seq<Coord>| #[trigger]
                is_route(e.tile(), w, goal, pass) ==> (plan->0).0.len() <= w.len()
        }),
{
    let start = e.tile();
    let goal = work_tiles(s.world, s.home, kind);
    let pass = bounds(s.world, s.home);
    lemma_bounds(s.world, s.home);
    lemma_work_tiles(s.world, s.home, kind);
    law_bfs_complete(start, PATH_BUDGET as int, goal, pass, way, room);
    law_bfs_route(start, PATH_BUDGET as int, goal, pass);
    let p = bfs_spec(start, PATH_BUDGET as int, goal, pass)->0;
    let end = before_step(start, p, p.len() as int);
    assert(goal(end));
    assert(crate::behavior::end_of(p, start) == end);
    lemma_node_beside(s.world, kind, end);
    lemma_first_neighbor(end, 0, has_node(s.world, kind));
    assert forall|w: Seq<Coord>| #[trigger] is_route(start, w, goal, pass) implies p.len()
        <= w.len() by {
        law_bfs_shortest(start, PATH_BUDGET as int, goal, pass, w);
    }
}

/// A free farmer goes to the nearest node that it can reach within bounds; to the nearest
/// of the preferred kind, where one of that kind can be reached. (The tiles it can reach
/// must be within its budget.)
pub proof fn law_farmers_gather_the_nearest(
    s: SceneView,
    e: EntityView,
    rng: u64,
    uses: Map<u64, u32>,
    acting: bool,
    under_limit: bool,
    dt: F32,
    way: Seq<Coord>,
    room: Set<Coord>,
)
    requires
        is_free(s, e),
        is_route(e.tile(), way, work_tiles(s.world, s.home, s.pref), bounds(s.world, s.home)),
        encloses(room, e.tile(), bounds(s.world, s.home)),
        room.finite(),
        room.len() <= PATH_BUDGET,
    ensures
        ({
            let step = ai_spec(s, e, rng, uses, acting, under_limit, dt);
            gathers(s, e, step.e, s.pref) && step.event is None && step.uses == uses
        }),
{
    reveal(ai_spec);
    lemma_plan(s, e, s.pref, way, room);
    let later = EntityView { repath: e.repath.sub_spec(dt), ..e };
    assert(later.tile() == e.tile());
    let step = ai_spec(s, e, rng, uses, acting, under_limit, dt);
    let plan = crate::behavior::plan_gather_kind_spec(s.world, 0, e.tile(), s.pref, s.home)->0;
    assert(ahead(step.e) =~= plan.0);
}

/// Where none of the preferred kind can be reached, any node will do, the nearest again.
pub proof fn law_farmers_settle_for_less(
    s: SceneView,
    e: EntityView,
    rng: u64,
    uses: Map<u64, u32>,
    acting: bool,
    under_limit: bool,
    dt: F32,
    way: Seq<Coord>,
    room: Set<Coord>,
)
    requires
        is_free(s, e),
        s.pref is Some,
        forall|w: Seq<Coord>|
            !(#[trigger] is_route(
                e.tile(),
                w,
                work_tiles(s.world, s.home, s.pref),
                bounds(s.world, s.home),
            )),
        is_route(e.tile(), way, work_tiles(s.world, s.home, None), bounds(s.world, s.home)),
        encloses(room, e.tile(), bounds(s.world, s.home)),
        room.finite(),
        room.len() <= PATH_BUDGET,
    ensures
        ({
            let step = ai_spec(s, e, rng, uses, acting, under_limit, dt);
            gathers(s, e, step.e, None) && step.event is None && step.uses == uses
        }),
{
    reveal(ai_spec);
    lemma_plan(s, e, None, way, room);
    lemma_bounds(s.world, s.home);
    lemma_work_tiles(s.world, s.home, s.pref);
    law_bfs_route(
        e.tile(),
        PATH_BUDGET as int,
        work_tiles(s.world, s.home, s.pref),
        bounds(s.world, s.home),
    );
    let later = EntityView { repath: e.repath.sub_spec(dt), ..e };
    assert(later.tile() == e.tile());
    let step = ai_spec(s, e, rng, uses, acting, under_limit, dt);
    let plan = crate::behavior::plan_gather_kind_spec(s.world, 0, e.tile(), None, s.home)->0;
    assert(ahead(step.e) =~= plan.0);
}

/// A bare plot next to the tile: open grass at home where nothing was sown yet.
pub open spec fn plot_beside(s: SceneView, t: Coord) -> bool {
    exists|n: Coord| #[trigger]
        adjacent_spec(t, n) && s.world.is_open_grass(n.0, n.1) && near_any_spec(s.home, n, 16)
            && !s.saplings.contains(n)
}

pub open spec fn plot_tiles(s: SceneView) -> spec_fn(Coord) -> bool {
    |t: Coord| in_bounds(s.world, s.home, t) && plot_beside(s, t)
}

proof fn lemma_plot_tiles(s: SceneView)
    ensures
        beside_plot(s.world, 0, s.home, s.saplings) == plot_tiles(s),
{
    let will_do = plantable(s.world, s.home, FARMER_HOME_RADIUS as int, s.saplings);
    assert forall|t: Coord| #[trigger] first_neighbor(t, 0, 4, will_do) is Some == plot_beside(
        s,
        t,
    ) by {
        lemma_first_neighbor(t, 0, will_do);
        if plot_beside(s, t) {
            let n = choose|n: Coord| #[trigger]
                adjacent_spec(t, n) && s.world.is_open_grass(n.0, n.1) && near_any_spec(
                    s.home,
                    n,
                    16,
                ) && !s.saplings.contains(n);
            lemma_some_neighbor(t, n, will_do);
        }
        if let Some(c) = first_neighbor(t, 0, 4, will_do) {
            assert(adjacent_spec(t, c));
        }
    }
    assert(beside_plot(s.world, 0, s.home, s.saplings) =~= plot_tiles(s));
}

/// With nothing to gather and no mine to go to, a free farmer goes to sow on the nearest
/// bare plot within bounds.
pub proof fn law_farmers_replant(
    s: SceneView,
    e: EntityView,
    rng: u64,
    uses: Map<u64, u32>,
    acting: bool,
    under_limit: bool,
    dt: F32,
    way: Seq<Coord>,
    room: Set<Coord>,
)
    requires
        is_free(s, e),
        nothing_to_gather(s.world, s.home),
        forall|c: Coord| !(#[trigger] has_room(s, uses, c)),
        is_route(e.tile(), way, plot_tiles(s), bounds(s.world, s.home)),
        encloses(room, e.tile(), bounds(s.world, s.home)),
        room.finite(),
        room.len() <= PATH_BUDGET,
    ensures
        ({
            let step = ai_spec(s, e, rng, uses, acting, under_limit, dt);
            let path = ahead(step.e);
            let t = step.e.target_node->0;
            &&& step.e.target_node is Some
            &&& s.world.is_open_grass(t.0, t.1)
            &&& near_any_spec(s.home, t, 16)
            &&& !s.saplings.contains(t)
            &&& is_route(e.tile(), path, plot_tiles(s), bounds(s.world, s.home))
            &&& adjacent_spec(before_step(e.tile(), path, path.len() as int), t)
            &&& forall|w: Seq<Coord>| #[trigger]
                is_route(e.tile(), w, plot_tiles(s), bounds(s.world, s.home)) ==> path.len()
                    <= w.len()
        }),
{
    let here = e.tile();
    lemma_plot_plan(s, here, way, room);
    let later = EntityView { repath: e.repath.sub_spec(dt), ..e };
    assert(later.tile() == here);
    let claim = crate::behavior::claim_spec(s, 0, here, uses);
    law_nearest(s.caves, here, claimable(s.world, 0, s.home, uses));
    if claim is Some {
        lemma_claimable(s, uses, claim->0);
    }
    lemma_no_plan(s, here, s.pref);
    lemma_no_plan(s, here, None);
    let step = ai_spec(s, e, rng, uses, acting, under_limit, dt);
    let plan = crate::behavior::plan_plant_spec(s.world, 0, here, s.home, s.saplings)->0;
    assert(ahead(step.e) =~= plan.0 && step.e.target_node == Some(plan.1)) by {
        reveal(ai_spec);
    }
}

proof fn lemma_plot_plan(s: SceneView, here: Coord, way: Seq<Coord>, room: Set<Coord>)
    requires
        is_route(here, way, plot_tiles(s), bounds(s.world, s.home)),
        encloses(room, here, bounds(s.world, s.home)),
        room.finite(),
        room.len() <= PATH_BUDGET,
    ensures
        ({
            let plan = crate::behavior::plan_plant_spec(s.world, 0, here, s.home, s.saplings);
            let path = (plan->0).0;
            let t = (plan->0).1;
            &&& plan is Some
            &&& s.world.is_open_grass(t.0, t.1)
            &&& near_any_spec(s.home, t, 16)
            &&& !s.saplings.contains(t)
            &&& is_route(here, path, plot_tiles(s), bounds(s.world, s.home))
            &&& adjacent_spec(before_step(here, path, path.len() as int), t)
            &&& forall|w: Seq<Coord>| #[trigger]
                is_route(here, w, plot_tiles(s), bounds(s.world, s.home)) ==> path.len() <= w.len()
        }),
{
    lemma_bounds(s.world, s.home);
    lemma_plot_tiles(s);
    let goal = plot_tiles(s);
    let pass = bounds(s.world, s.home);
    law_bfs_complete(here, PATH_BUDGET as int, goal, pass, way, room);
    law_bfs_route(here, PATH_BUDGET as int, goal, pass);
    let p = bfs_spec(here, PATH_BUDGET as int, goal, pass)->0;
    let end = before_step(here, p, p.len() as int);
    assert(goal(end));
    assert(crate::behavior::end_of(p, here) == end);
    let will_do = plantable(s.world, s.home, FARMER_HOME_RADIUS as int, s.saplings);
    let n = choose|n: Coord| #[trigger]
        adjacent_spec(end, n) && s.world.is_open_grass(n.0, n.1) && near_any_spec(s.home, n, 16)
            && !s.saplings.contains(n);
    lemma_some_neighbor(end, n, will_do);
    lemma_first_neighbor(end, 0, will_do);
    assert forall|w: Seq<Coord>| #[trigger] is_route(here, w, goal, pass) implies p.len()
        <= w.len() by {
        law_bfs_shortest(here, PATH_BUDGET as int, goal, pass, w);
    }
}

} // verus!
