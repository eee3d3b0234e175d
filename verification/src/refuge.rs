//! Running for shelter, and coming home.

use vstd::prelude::*;
use crate::behavior::{shelters, SceneView, StepEvent, PATH_BUDGET};
use crate::float::F32;
use crate::grid::{abs_spec, adjacent_spec, manhattan_spec, neighbor_spec, offset_spec, within_spec};
use crate::knight::ai_spec;
use crate::pathfind::{is_walk, law_path_to, path_end, walks};
use crate::survey::{
    anything, choose_wall_tile_spec, first_neighbor, law_nearest, nearest_spec, ring_spec,
    stand_tile_spec,
};
use crate::unit::{max_hp_for_spec, EntityView, Faction, Job};
use crate::vec2::{Coord, Vec2};
use crate::works::{bare_grass, mark};
use crate::world::WorldView;

verus! {

/// Somebody of another side than the faction is within six tiles of the point.
pub open spec fn threatened(snap: Seq<(Vec2, Faction)>, at: Vec2, f: Faction) -> bool {
    let six = F32 { bits: 0x40c0_0000 };
    exists|i: int|
        0 <= i < snap.len() && (#[trigger] snap[i]).1 != f && snap[i].0.distance_squared_spec(
            at,
        ).le_spec(six.mul_spec(six))
}

/// A hut of the side's own with fewer than four in it, next to which its people can stand.
pub open spec fn takes_in(s: SceneView, f: Faction, t: Coord) -> bool {
    &&& s.huts.contains(t)
    &&& s.world.cell(t.0, t.1) matches Some(c) && c.hut matches Some(h) && h.owner == mark(f)
        && h.occupants < 4
    &&& exists|n: Coord| #[trigger] adjacent_spec(t, n) && s.world.walkable_for(mark(f), n.0, n.1)
}

pub proof fn lemma_stand(w: WorldView, owner: u8, t: Coord, i: int)
    requires
        0 <= i <= 4,
    ensures
        first_neighbor(t, i, 4, walks(w, owner)) matches Some(c) ==> adjacent_spec(t, c)
            && w.walkable_for(owner, c.0, c.1),
        first_neighbor(t, i, 4, walks(w, owner)) is None ==> forall|k: int|
            i <= k < 4 ==> ((#[trigger] neighbor_spec(t, k)) matches Some(n) ==> !w.walkable_for(
                owner,
                n.0,
                n.1,
            )),
    decreases 4 - i,
{
    if i < 4 {
        lemma_stand(w, owner, t, i + 1);
    }
}

pub proof fn lemma_takes_in(s: SceneView, f: Faction, t: Coord)
    ensures
        takes_in(s, f, t) == (s.huts.contains(t) && shelters(s.world, mark(f))(t)),
{
    let owner = mark(f);
    lemma_stand(s.world, owner, t, 0);
    if let Some(n) = stand_tile_spec(s.world, owner, t) {
        assert(adjacent_spec(t, n));
    }
    if takes_in(s, f, t) {
        let n = choose|n: Coord| #[trigger]
            adjacent_spec(t, n) && s.world.walkable_for(owner, n.0, n.1);
        assert(neighbor_spec(t, 0) == Some(n) || neighbor_spec(t, 1) == Some(n) || neighbor_spec(
            t,
            2,
        ) == Some(n) || neighbor_spec(t, 3) == Some(n));
    }
}

/// A farmer with a foe within six tiles runs for the nearest hut of its side that takes it
/// in, and ducks in as soon as it is next to it. While it runs nothing else is on its mind:
/// any new way leads, over tiles it can walk on, to a tile next to that hut.
pub proof fn law_farmers_run_for_shelter(
    s: SceneView,
    e: EntityView,
    rng: u64,
    uses: Map<u64, u32>,
    acting: bool,
    under: bool,
    dt: F32,
    hut: Coord,
)
    requires
        e.job == Job::Farmer,
        threatened(s.snap, e.pos, e.faction),
        takes_in(s, e.faction, hut),
    ensures
        ({
            let step = ai_spec(s, e, rng, uses, acting, under, dt);
            exists|t: Coord| #[trigger]
                takes_in(s, e.faction, t) && manhattan_spec(t, e.tile()) <= manhattan_spec(
                    hut,
                    e.tile(),
                ) && step.event == (if adjacent_spec(e.tile(), t) {
                    Some(StepEvent::Hide(t))
                } else {
                    None
                }) && (step.e.path == e.path || (is_walk(e.tile(), step.e.path) && adjacent_spec(
                    t,
                    path_end(e.tile(), step.e.path),
                ))) && (e.faction == Faction::Player ==> step.e.mine_target is None)
        }),
{
    reveal(ai_spec);
    let owner = mark(e.faction);
    let here = e.tile();
    let later = EntityView { repath: e.repath.sub_spec(dt), ..e };
    assert(later.tile() == here);
    let six = F32 { bits: 0x40c0_0000 };
    assert(crate::behavior::enemy_within_spec(s.snap, e.pos, e.faction, six));
    lemma_takes_in(s, e.faction, hut);
    law_nearest(s.huts, here, shelters(s.world, owner));
    let k = s.huts.index_of(hut);
    assert(shelters(s.world, owner)(s.huts[k]));
    let t = nearest_spec(s.huts, here, shelters(s.world, owner))->0;
    lemma_takes_in(s, e.faction, t);
    lemma_stand(s.world, owner, t, 0);
    let stand = stand_tile_spec(s.world, owner, t)->0;
    law_path_to(s.world, owner, here, stand, PATH_BUDGET as int);
    assert(takes_in(s, e.faction, t));
}

/// Nobody hides without a reason: a foe is within six tiles.
pub proof fn law_nobody_hides_in_peace(
    s: SceneView,
    e: EntityView,
    rng: u64,
    uses: Map<u64, u32>,
    acting: bool,
    under: bool,
    dt: F32,
)
    requires
        !threatened(s.snap, e.pos, e.faction),
    ensures
        !(ai_spec(s, e, rng, uses, acting, under, dt).event matches Some(StepEvent::Hide(t))),
{
    reveal(ai_spec);
    let six = F32 { bits: 0x40c0_0000 };
    if crate::behavior::enemy_within_spec(s.snap, e.pos, e.faction, six) {
        let i = choose|i: int|
            0 <= i < s.snap.len() && (#[trigger] s.snap[i]).1 != e.faction
                && s.snap[i].0.distance_squared_spec(e.pos).le_spec(six.mul_spec(six));
        assert(s.snap[i].1 != e.faction);
    }
    let later = EntityView { repath: e.repath.sub_spec(dt), ..e };
    if e.job == Job::Knight && !under {
        lemma_soldiers_do_not_hide(s, later, rng, uses, mark(e.faction), acting, dt);
    }
}

proof fn lemma_soldiers_do_not_hide(
    s: SceneView,
    e: EntityView,
    rng: u64,
    uses: Map<u64, u32>,
    owner: u8,
    acting: bool,
    dt: F32,
)
    ensures
        !(crate::knight::soldier_spec(
            s,
            e,
            rng,
            uses,
            owner,
            acting,
            dt,
        ).event matches Some(StepEvent::Hide(t))),
{
}

// --- coming home -------------------------------------------------------------------------

/// The tile is `r` away from the other, along one axis at least, and no farther.
pub open spec fn on_ring(t: Coord, center: Coord, r: int) -> bool {
    within_spec(t, center, r) && (abs_spec(t.0 - center.0) == r || abs_spec(t.1 - center.1) == r)
}

proof fn lemma_ring(w: WorldView, center: Coord, r: int, k: int)
    requires
        1 <= r <= 2,
        0 <= k <= (2 * r + 1) * (2 * r + 1),
    ensures
        match ring_spec(w, center, r, k) {
            Some(t) => bare_grass(w, t.0, t.1) && on_ring(t, center, r),
            None => forall|j: int|
                k <= j < (2 * r + 1) * (2 * r + 1) ==> ((#[trigger] offset_spec(
                    center,
                    j % (2 * r + 1) - r,
                    j / (2 * r + 1) - r,
                )) matches Some(t) ==> !bare_grass(w, t.0, t.1) || !on_ring(t, center, r)),
        },
    decreases (2 * r + 1) * (2 * r + 1) - k,
{
    let side = 2 * r + 1;
    if k < side * side {
        lemma_ring(w, center, r, k + 1);
        assert(-r <= k % side - r <= r && -r <= k / side - r <= r) by {
            if r == 1 {
                assert(side * side == 9) by (nonlinear_arith)
                    requires
                        side == 3,
                ;
                assert(0 <= k / 3 <= 2 && 0 <= k % 3 <= 2);
            } else {
                assert(side * side == 25) by (nonlinear_arith)
                    requires
                        side == 5,
                ;
                assert(0 <= k / 5 <= 4 && 0 <= k % 5 <= 4);
            }
        }
    }
}

/// A tile on a ring is one that the ring looks at.
proof fn lemma_on_ring(center: Coord, t: Coord, r: int) -> (j: int)
    requires
        1 <= r <= 2,
        on_ring(t, center, r),
    ensures
        0 <= j < (2 * r + 1) * (2 * r + 1),
        offset_spec(center, j % (2 * r + 1) - r, j / (2 * r + 1) - r) == Some(t),
{
    let dx = t.0 - center.0;
    let dy = t.1 - center.1;
    let side = 2 * r + 1;
    let j = (dy + r) * side + (dx + r);
    if r == 1 {
        assert(j == (dy + 1) * 3 + (dx + 1) && side * side == 9) by (nonlinear_arith)
            requires
                side == 3,
                r == 1,
                j == (dy + r) * side + (dx + r),
        ;
        assert(j % 3 == dx + 1 && j / 3 == dy + 1);
    } else {
        assert(j == (dy + 2) * 5 + (dx + 2) && side * side == 25) by (nonlinear_arith)
            requires
                side == 5,
                r == 2,
                j == (dy + r) * side + (dx + r),
        ;
        assert(j % 5 == dx + 2 && j / 5 == dy + 2);
    }
    j
}

/// The wall goes up on bare grass right round the house, or one tile farther out where there
/// is none; there is no wall where there is none either.
pub proof fn law_where_a_wall_goes(w: WorldView, house: Coord)
    ensures
        match choose_wall_tile_spec(w, house) {
            Some(t) => bare_grass(w, t.0, t.1) && (on_ring(t, house, 1) || (on_ring(t, house, 2)
                && forall|u: Coord| #[trigger]
                on_ring(u, house, 1) ==> !bare_grass(w, u.0, u.1))),
            None => forall|u: Coord| #[trigger]
                within_spec(u, house, 2) && u != house ==> !bare_grass(w, u.0, u.1),
        },
{
    lemma_ring(w, house, 1, 0);
    lemma_ring(w, house, 2, 0);
    if ring_spec(w, house, 1, 0) is None {
        assert forall|u: Coord| #[trigger] on_ring(u, house, 1) implies !bare_grass(w, u.0, u.1) by {
            let j = lemma_on_ring(house, u, 1);
        }
        if ring_spec(w, house, 2, 0) is None {
            assert forall|u: Coord| #[trigger]
                within_spec(u, house, 2) && u != house implies !bare_grass(w, u.0, u.1) by {
                if on_ring(u, house, 1) {
                } else {
                    assert(on_ring(u, house, 2));
                    let j = lemma_on_ring(house, u, 2);
                }
            }
        }
    }
}

/// What a knight does on its way to the house, and there.
pub open spec fn homecoming(
    w: WorldView,
    e: EntityView,
    after: EntityView,
    event: Option<StepEvent>,
    h: Coord,
) -> bool {
    if manhattan_spec(h, e.tile()) <= 1 {
        &&& after.job == Job::Farmer
        &&& after.hp == max_hp_for_spec(e.faction, Job::Farmer)
        &&& after.max_hp == after.hp
        &&& after.path.len() == 0
        &&& after.target_node is None
        &&& event == match choose_wall_tile_spec(w, h) {
            Some(t) => Some(StepEvent::RaiseWall(t)),
            None => None,
        }
    } else {
        &&& after.job == Job::Knight
        &&& after.hp == e.hp
        &&& event is None
        &&& after.path == e.path || (is_walk(e.tile(), after.path) && (path_end(
            e.tile(),
            after.path,
        ) == h || adjacent_spec(path_end(e.tile(), after.path), h)))
    }
}

proof fn lemma_homecoming(w: WorldView, e: EntityView, home: Seq<Coord>, dt: F32)
    requires
        e.job == Job::Knight,
        nearest_spec(home, e.tile(), anything()) is Some,
    ensures
        ({
            let h = nearest_spec(home, e.tile(), anything())->0;
            let (after, event) = crate::knight::retreat_spec(w, e, mark(e.faction), home, dt);
            homecoming(w, e, after, event, h)
        }),
{
    let h = nearest_spec(home, e.tile(), anything())->0;
    law_path_to(w, mark(e.faction), e.tile(), h, PATH_BUDGET as int);
}

/// A knight whose side is short of hands goes home, to the nearest of its houses. At the
/// house it becomes a farmer, as fit as any, and puts up a wall; until then it stays a
/// knight and fights nobody.
pub proof fn law_knights_come_home(
    s: SceneView,
    e: EntityView,
    rng: u64,
    uses: Map<u64, u32>,
    acting: bool,
    dt: F32,
    house: Coord,
)
    requires
        e.job == Job::Knight,
        s.home.contains(house),
    ensures
        ({
            let step = ai_spec(s, e, rng, uses, acting, true, dt);
            exists|h: Coord| #[trigger]
                homecoming(s.world, e, step.e, step.event, h) && s.home.contains(h)
                    && manhattan_spec(h, e.tile()) <= manhattan_spec(house, e.tile())
        }),
{
    let here = e.tile();
    let h = nearest_spec(s.home, here, anything())->0;
    assert(nearest_spec(s.home, here, anything()) is Some && s.home.contains(h) && manhattan_spec(
        h,
        here,
    ) <= manhattan_spec(house, here)) by {
        law_nearest(s.home, here, anything());
        let k = s.home.index_of(house);
        assert(anything()(s.home[k]));
    }
    let later = EntityView { repath: e.repath.sub_spec(dt), ..e };
    assert(later.tile() == here);
    lemma_homecoming(s.world, later, s.home, dt);
    let step = ai_spec(s, e, rng, uses, acting, true, dt);
    assert((step.e, step.event) == crate::knight::retreat_spec(
        s.world,
        later,
        mark(e.faction),
        s.home,
        dt,
    )) by {
        reveal(ai_spec);
    }
    assert(homecoming(s.world, e, step.e, step.event, h));
}

} // verus!
