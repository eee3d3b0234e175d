//! Nobody comes from nowhere, and nobody vanishes: those afoot and those in huts are
//! counted together.

use vstd::prelude::*;
use crate::behavior::{SceneView, StepEvent};
use crate::chunk::{Cell, Hut};
use crate::float::F32;
use crate::game::{farmers_of, headcount, swap_removed, without, GameView};
use crate::grid::{neighbor_spec, within_spec};
use crate::knight::ai_spec;
use crate::register::{
    lemma_cleared, lemma_huts_from_trees, lemma_left_alone, lemma_load,
    lemma_opened, lemma_prepared, lemma_tile, on, registered, tidy,
};
use crate::rules::{dead_from, law_edits_are_local};
use crate::survey::first_neighbor;
use crate::turn::{TurnView, MAX_STEP};
use crate::unit::{max_hp_for_spec, owner_of_spec, EntityView, Faction, Job};
use crate::vec2::{tile_center_spec, Coord};
use crate::world::{Layer, WorldView};

verus! {

// --- those afoot -------------------------------------------------------------------------

/// One for a unit of the faction that is alive and in the open.
pub open spec fn counts(e: EntityView, f: Faction) -> nat {
    if e.faction == f && !e.slain() && !e.sheltered {
        1
    } else {
        0
    }
}

/// How many of the first `n` units are of the faction, alive and in the open.
pub open spec fn afoot(es: Seq<EntityView>, f: Faction, n: int) -> nat
    decreases n,
{
    if n <= 0 {
        0
    } else {
        afoot(es, f, n - 1) + counts(es[n - 1], f)
    }
}

proof fn lemma_afoot_same(a: Seq<EntityView>, b: Seq<EntityView>, f: Faction, n: int)
    requires
        forall|k: int| 0 <= k < n ==> counts(#[trigger] a[k], f) == counts(b[k], f),
    ensures
        afoot(a, f, n) == afoot(b, f, n),
    decreases n,
{
    if n > 0 {
        lemma_afoot_same(a, b, f, n - 1);
        assert(counts(a[n - 1], f) == counts(b[n - 1], f));
    }
}

proof fn lemma_afoot_update(es: Seq<EntityView>, i: int, e: EntityView, f: Faction, n: int)
    requires
        0 <= i < n <= es.len(),
    ensures
        afoot(es.update(i, e), f, n) + counts(es[i], f) == afoot(es, f, n) + counts(e, f),
    decreases n,
{
    let now = es.update(i, e);
    if i == n - 1 {
        assert forall|k: int| 0 <= k < n - 1 implies counts(#[trigger] now[k], f) == counts(
            es[k],
            f,
        ) by {}
        lemma_afoot_same(now, es, f, n - 1);
    } else {
        lemma_afoot_update(es, i, e, f, n - 1);
        assert(now[n - 1] == es[n - 1]);
    }
}

proof fn lemma_afoot_push(es: Seq<EntityView>, e: EntityView, f: Faction)
    ensures
        afoot(es.push(e), f, es.len() as int + 1) == afoot(es, f, es.len() as int) + counts(e, f),
{
    let now = es.push(e);
    assert forall|k: int| 0 <= k < es.len() implies counts(#[trigger] now[k], f) == counts(
        es[k],
        f,
    ) by {}
    lemma_afoot_same(now, es, f, es.len() as int);
}

proof fn lemma_afoot_swap(es: Seq<EntityView>, i: int, f: Faction)
    requires
        0 <= i < es.len(),
    ensures
        afoot(swap_removed(es, i), f, es.len() - 1) + counts(es[i], f) == afoot(
            es,
            f,
            es.len() as int,
        ),
{
    let n = es.len() as int;
    let moved = es.update(i, es.last());
    let left = swap_removed(es, i);
    lemma_afoot_update(es, i, es.last(), f, n);
    assert forall|k: int| 0 <= k < n - 1 implies counts(#[trigger] left[k], f) == counts(
        moved[k],
        f,
    ) by {}
    lemma_afoot_same(left, moved, f, n - 1);
    assert(moved[n - 1] == es.last());
}

/// Everyone is alive and in the open.
pub open spec fn all_afoot(es: Seq<EntityView>) -> bool {
    forall|k: int| 0 <= k < es.len() ==> !(#[trigger] es[k]).slain() && !es[k].sheltered
}

/// In the open field the count is the head count.
pub proof fn law_heads_are_counted(es: Seq<EntityView>, f: Faction)
    requires
        all_afoot(es),
    ensures
        afoot(es, f, es.len() as int) == headcount(es, f),
    decreases es.len(),
{
    if es.len() > 0 {
        let rest = es.drop_last();
        assert forall|k: int| 0 <= k < rest.len() implies !(#[trigger] rest[k]).slain()
            && !rest[k].sheltered by {
            assert(es[k] == rest[k]);
        }
        law_heads_are_counted(rest, f);
        assert forall|k: int| 0 <= k < rest.len() implies counts(#[trigger] rest[k], f) == counts(
            es[k],
            f,
        ) by {}
        lemma_afoot_same(rest, es, f, rest.len() as int);
        assert(!es[es.len() - 1].slain() && !es[es.len() - 1].sheltered);
    }
}

// --- those in huts -----------------------------------------------------------------------

/// How many of the faction's people are in the hut on the tile, if there is one.
pub open spec fn lodgers(w: WorldView, t: Coord, f: Faction) -> nat {
    match w.hut(t.0, t.1) {
        Some(h) => if (h.owner == 0) == (f == Faction::Player) {
            h.occupants as nat
        } else {
            0
        },
        None => 0,
    }
}

/// How many of the faction's people are in the huts on the list.
pub open spec fn indoors(w: WorldView, tiles: Seq<Coord>, f: Faction) -> nat
    decreases tiles.len(),
{
    if tiles.len() == 0 {
        0
    } else {
        indoors(w, tiles.drop_last(), f) + lodgers(w, tiles.last(), f)
    }
}

/// How many people the faction has, in the open and in huts.
pub open spec fn people(g: GameView, f: Faction) -> nat {
    afoot(g.entities, f, g.entities.len() as int) + indoors(g.world, g.hut_tiles, f)
}

/// The same people are in the same huts.
pub open spec fn same_lodgers(a: WorldView, b: WorldView) -> bool {
    forall|t: Coord, f: Faction|
        #![trigger lodgers(a, t, f)]
        #![trigger lodgers(b, t, f)]
        lodgers(a, t, f) == lodgers(b, t, f)
}

proof fn lemma_indoors_same(a: WorldView, b: WorldView, tiles: Seq<Coord>, f: Faction)
    requires
        forall|k: int|
            0 <= k < tiles.len() ==> lodgers(a, #[trigger] tiles[k], f) == lodgers(b, tiles[k], f),
    ensures
        indoors(a, tiles, f) == indoors(b, tiles, f),
    decreases tiles.len(),
{
    if tiles.len() > 0 {
        let rest = tiles.drop_last();
        assert forall|k: int| 0 <= k < rest.len() implies lodgers(a, #[trigger] rest[k], f)
            == lodgers(b, rest[k], f) by {
            assert(rest[k] == tiles[k]);
        }
        lemma_indoors_same(a, b, rest, f);
        assert(tiles[tiles.len() - 1] == tiles.last());
    }
}

proof fn lemma_indoors_kept(a: WorldView, b: WorldView, tiles: Seq<Coord>, f: Faction)
    requires
        same_lodgers(a, b),
    ensures
        indoors(a, tiles, f) == indoors(b, tiles, f),
{
    assert forall|k: int| 0 <= k < tiles.len() implies lodgers(a, #[trigger] tiles[k], f)
        == lodgers(b, tiles[k], f) by {}
    lemma_indoors_same(a, b, tiles, f);
}

/// Only one hut on the list differs.
proof fn lemma_indoors_one(a: WorldView, b: WorldView, tiles: Seq<Coord>, t: Coord, f: Faction)
    requires
        tiles.no_duplicates(),
        tiles.contains(t),
        forall|u: Coord| u != t ==> #[trigger] lodgers(b, u, f) == lodgers(a, u, f),
    ensures
        indoors(b, tiles, f) + lodgers(a, t, f) == indoors(a, tiles, f) + lodgers(b, t, f),
    decreases tiles.len(),
{
    let rest = tiles.drop_last();
    let last = tiles.last();
    assert(tiles[tiles.len() - 1] == last);
    if last == t {
        assert forall|k: int| 0 <= k < rest.len() implies lodgers(b, #[trigger] rest[k], f)
            == lodgers(a, rest[k], f) by {
            assert(rest[k] == tiles[k]);
            assert(rest[k] != t);
        }
        lemma_indoors_same(b, a, rest, f);
    } else {
        let k = tiles.index_of(t);
        assert(rest[k] == t);
        assert(rest.no_duplicates());
        lemma_indoors_one(a, b, rest, t, f);
        assert(lodgers(b, last, f) == lodgers(a, last, f));
    }
}

proof fn lemma_indoors_absent(tiles: Seq<Coord>, t: Coord)
    requires
        !tiles.contains(t),
    ensures
        without(tiles, t) == tiles,
    decreases tiles.len(),
{
    if tiles.len() > 0 {
        let rest = tiles.drop_last();
        assert(tiles[tiles.len() - 1] != t);
        if rest.contains(t) {
            let k = rest.index_of(t);
            assert(tiles[k] == t);
        }
        lemma_indoors_absent(rest, t);
        assert(rest.push(tiles.last()) =~= tiles);
    }
}

proof fn lemma_indoors_without(w: WorldView, tiles: Seq<Coord>, t: Coord, f: Faction)
    requires
        tiles.no_duplicates(),
        tiles.contains(t),
    ensures
        indoors(w, without(tiles, t), f) + lodgers(w, t, f) == indoors(w, tiles, f),
    decreases tiles.len(),
{
    let rest = tiles.drop_last();
    let last = tiles.last();
    assert(tiles[tiles.len() - 1] == last);
    if last == t {
        if rest.contains(t) {
            let k = rest.index_of(t);
            assert(tiles[k] == t);
        }
        lemma_indoors_absent(rest, t);
    } else {
        let k = tiles.index_of(t);
        assert(rest[k] == t);
        assert(rest.no_duplicates());
        lemma_indoors_without(w, rest, t, f);
        let left = without(rest, t);
        assert(left.push(last).drop_last() =~= left);
    }
}

// --- the land ----------------------------------------------------------------------------

/// An edit that leaves the hut's owner and occupants as they are.
proof fn lemma_lodgers_edit(w: WorldView, x: i32, y: i32, c: Cell)
    requires
        w.wf(),
        w.loaded(x, y),
        match w.at(x, y).hut {
            Some(h) => c.hut is Some && c.hut->0.owner == h.owner && c.hut->0.occupants
                == h.occupants,
            None => c.hut is None,
        },
    ensures
        same_lodgers(w, w.with_cell(x, y, c)),
{
    let after = w.with_cell(x, y, c);
    assert forall|t: Coord, f: Faction| lodgers(w, t, f) == lodgers(after, t, f) by {
        law_edits_are_local(w, x, y, c, t.0, t.1);
    }
}

proof fn lemma_lodgers_load(w: WorldView, c: Coord)
    requires
        tidy(w),
        crate::register::chunk_on_map(c),
    ensures
        same_lodgers(w, w.ensured(c)),
{
    lemma_load(w, c);
    let more = w.ensured(c);
    assert forall|t: Coord, f: Faction| lodgers(w, t, f) == lodgers(more, t, f) by {
        if w.loaded(t.0, t.1) {
            assert(more.cell(t.0, t.1) == w.cell(t.0, t.1));
        } else {
            assert(on(more, Layer::Hut, t) == on(w, Layer::Hut, t));
        }
    }
}

proof fn lemma_lodgers_tile(w: WorldView, x: i32, y: i32)
    requires
        tidy(w),
    ensures
        same_lodgers(w, w.with_tile(x, y)),
{
    crate::register::lemma_chunk_on_map(x, y);
    lemma_lodgers_load(w, crate::world::chunk_coord(x, y));
}

proof fn lemma_lodgers_chain(a: WorldView, b: WorldView, c: WorldView)
    requires
        same_lodgers(a, b),
        same_lodgers(b, c),
    ensures
        same_lodgers(a, c),
{
    assert forall|t: Coord, f: Faction| lodgers(a, t, f) == lodgers(c, t, f) by {
        assert(lodgers(a, t, f) == lodgers(b, t, f));
    }
}

proof fn lemma_lodgers_row(w: WorldView, cy: int, cx0: int, cx1: int)
    requires
        tidy(w),
        -0x0400_0000 <= cy < 0x0400_0000,
        -0x0400_0000 <= cx0,
        cx1 < 0x0400_0000,
    ensures
        tidy(w.ensured_row(cy, cx0, cx1)),
        same_lodgers(w, w.ensured_row(cy, cx0, cx1)),
    decreases cx1 - cx0 + 1,
{
    if cx0 <= cx1 {
        let c: Coord = (cx0 as i32, cy as i32);
        let next = w.ensured(c);
        lemma_load(w, c);
        lemma_lodgers_load(w, c);
        lemma_lodgers_row(next, cy, cx0 + 1, cx1);
        lemma_lodgers_chain(w, next, w.ensured_row(cy, cx0, cx1));
    }
}

proof fn lemma_lodgers_rows(w: WorldView, cy0: int, cy1: int, cx0: int, cx1: int)
    requires
        tidy(w),
        -0x0400_0000 <= cy0,
        cy1 < 0x0400_0000,
        -0x0400_0000 <= cx0,
        cx1 < 0x0400_0000,
    ensures
        same_lodgers(w, w.ensured_rows(cy0, cy1, cx0, cx1)),
    decreases cy1 - cy0 + 1,
{
    if cy0 <= cy1 {
        let next = w.ensured_row(cy0, cx0, cx1);
        lemma_lodgers_row(w, cy0, cx0, cx1);
        lemma_lodgers_rows(next, cy0 + 1, cy1, cx0, cx1);
        lemma_lodgers_chain(w, next, w.ensured_rows(cy0, cy1, cx0, cx1));
    }
}

proof fn lemma_lodgers_region(w: WorldView, a: i32, b: i32, c: i32, d: i32)
    requires
        tidy(w),
    ensures
        same_lodgers(w, w.ensured_region(a, b, c, d)),
{
    lemma_lodgers_rows(
        w,
        crate::chunk::chunk_of_spec(b as int),
        crate::chunk::chunk_of_spec(d as int),
        crate::chunk::chunk_of_spec(a as int),
        crate::chunk::chunk_of_spec(c as int),
    );
}

proof fn lemma_lodgers_walls(w: WorldView, walls: Seq<(Coord, F32)>, n: int)
    requires
        tidy(w),
    ensures
        same_lodgers(w, crate::battle::walls_hit(w, walls, n)),
    decreases n,
{
    if n > 0 {
        lemma_lodgers_walls(w, walls, n - 1);
        crate::register::lemma_walls_hit(w, walls, n - 1);
        let before = crate::battle::walls_hit(w, walls, n - 1);
        let ((x, y), dmg) = walls[n - 1];
        if let Some(wall) = before.wall(x, y) {
            let left = if wall.hp.sub_spec(dmg).le_spec(F32 { bits: 0 }) {
                None
            } else {
                Some(crate::chunk::Wall { hp: wall.hp.sub_spec(dmg), ..wall })
            };
            lemma_lodgers_edit(before, x, y, Cell { wall: left, ..before.at(x, y) });
            lemma_lodgers_chain(w, before, crate::battle::walls_hit(w, walls, n));
        }
    }
}

// --- a hut is opened ---------------------------------------------------------------------

/// Anyone can walk on one of the eight tiles round the hut.
pub open spec fn has_door(w: WorldView, t: Coord) -> bool {
    exists|k: int|
        0 <= k < 8 && ((#[trigger] neighbor_spec(t, k)) matches Some(n) && w.walkable_for(
            crate::chunk::NO_OWNER,
            n.0,
            n.1,
        ))
}

/// Nobody of another side than the faction is within nine tiles of the middle of the hut.
pub open spec fn is_safe(es: Seq<EntityView>, t: Coord, f: Faction) -> bool {
    let nine = F32 { bits: 0x4110_0000 };
    forall|i: int|
        0 <= i < es.len() && (#[trigger] es[i]).faction != f ==> !es[i].pos.distance_squared_spec(
            tile_center_spec(t),
        ).le_spec(nine.mul_spec(nine))
}

/// The side that a hut belongs to.
pub open spec fn side_of(h: Hut) -> Faction {
    if h.owner == 0 {
        Faction::Player
    } else {
        Faction::Enemy
    }
}

pub proof fn lemma_door(t: Coord, i: int, will_do: spec_fn(Coord) -> bool)
    requires
        0 <= i <= 8,
    ensures
        first_neighbor(t, i, 8, will_do) matches Some(c) ==> within_spec(c, t, 1) && c != t
            && will_do(c),
        first_neighbor(t, i, 8, will_do) is None ==> forall|k: int|
            i <= k < 8 ==> ((#[trigger] neighbor_spec(t, k)) matches Some(n) ==> !will_do(n)),
    decreases 8 - i,
{
    if i < 8 {
        lemma_door(t, i + 1, will_do);
    }
}

proof fn lemma_farmers_added(es: Seq<EntityView>, e: EntityView, n: nat, f: Faction)
    ensures
        ({
            let now = es + Seq::new(n, |k: int| e);
            let one: nat = if e.faction == f {
                1
            } else {
                0
            };
            &&& headcount(now, f) == headcount(es, f) + n * one
            &&& e.job == Job::Farmer ==> farmers_of(now, f) == farmers_of(es, f) + n * one
            &&& afoot(now, f, now.len() as int) == afoot(es, f, es.len() as int) + n * counts(e, f)
        }),
    decreases n,
{
    let now = es + Seq::new(n, |k: int| e);
    if n == 0 {
        assert(now =~= es);
    } else {
        let before = es + Seq::new((n - 1) as nat, |k: int| e);
        lemma_farmers_added(es, e, (n - 1) as nat, f);
        assert(now =~= before.push(e));
        assert(now.drop_last() =~= before);
        lemma_afoot_push(before, e, f);
        let one: nat = if e.faction == f {
            1
        } else {
            0
        };
        let c = counts(e, f);
        assert(n * one == (n - 1) * one + one) by (nonlinear_arith)
            requires
                n >= 1,
        ;
        assert(n * c == (n - 1) * c + c) by (nonlinear_arith)
            requires
                n >= 1,
        ;
    }
}

/// A hut that nobody threatens lets everyone out: as many farmers of its side as were in it
/// step out beside it, alive and well, and it is empty. Nobody else comes or goes, and
/// nothing else on the land changes.
pub proof fn law_opening_lets_everyone_out(g: GameView, t: Coord, f: Faction)
    requires
        g.world.wf(),
        g.world.hut(t.0, t.1) is Some,
        is_safe(g.entities, t, side_of(g.world.hut(t.0, t.1)->0)),
        has_door(g.world, t),
    ensures
        ({
            let h = g.world.hut(t.0, t.1)->0;
            let side = side_of(h);
            let after = g.opened(t);
            let out: nat = if f == side {
                h.occupants as nat
            } else {
                0
            };
            &&& headcount(after.entities, f) == headcount(g.entities, f) + out
            &&& farmers_of(after.entities, f) == farmers_of(g.entities, f) + out
            &&& after.entities.len() == g.entities.len() + h.occupants
            &&& after.entities.take(g.entities.len() as int) == g.entities
            &&& forall|k: int|
                g.entities.len() <= k < after.entities.len() ==> {
                    let e = #[trigger] after.entities[k];
                    &&& e.faction == side
                    &&& e.job == Job::Farmer
                    &&& e.hp == e.max_hp
                    &&& e.hp == max_hp_for_spec(side, Job::Farmer)
                    &&& exists|d: Coord|
                        e.pos == #[trigger] tile_center_spec(d) && within_spec(d, t, 1)
                            && g.world.walkable_for(crate::chunk::NO_OWNER, d.0, d.1)
                }
            &&& after.world.hut(t.0, t.1) == Some(Hut { occupants: 0, ..h })
            &&& forall|u: Coord|
                u != t ==> #[trigger] after.world.cell(u.0, u.1) == g.world.cell(u.0, u.1)
            &&& after.hut_tiles == g.hut_tiles
            &&& after.units_lost == g.units_lost
            &&& after.enemies_defeated == g.enemies_defeated
        }),
{
    reveal(GameView::opened);
    let h = g.world.hut(t.0, t.1)->0;
    let side = side_of(h);
    let after = g.opened(t);
    let emptied = g.world.with_occupants(t.0, t.1, 0);
    let c = Cell { hut: Some(Hut { occupants: 0, ..h }), ..g.world.at(t.0, t.1) };
    assert(!crate::turn::in_danger(g.entities, tile_center_spec(t), side));
    assert forall|u: Coord| #[trigger] emptied.cell(u.0, u.1) == if u == t {
        Some(c)
    } else {
        g.world.cell(u.0, u.1)
    } by {
        law_edits_are_local(g.world, t.0, t.1, c, u.0, u.1);
    }
    let walk = crate::pathfind::walks(emptied, crate::chunk::NO_OWNER);
    assert(emptied.cell(t.0, t.1) == Some(c));
    lemma_door(t, 0, walk);
    let k = choose|k: int|
        0 <= k < 8 && ((#[trigger] neighbor_spec(t, k)) matches Some(n) && g.world.walkable_for(
            crate::chunk::NO_OWNER,
            n.0,
            n.1,
        ));
    let n = neighbor_spec(t, k)->0;
    assert(emptied.cell(n.0, n.1) == g.world.cell(n.0, n.1));
    assert(walk(n));
    let door = first_neighbor(t, 0, 8, walk)->0;
    assert(emptied.cell(door.0, door.1) == g.world.cell(door.0, door.1));
    let farmer = EntityView::fresh(side, Job::Farmer, door);
    if h.occupants > 0 {
        assert(after.entities =~= g.entities + Seq::new(h.occupants as nat, |j: int| farmer));
        assert(after.world == emptied);
    } else {
        assert(after == g);
        assert(after.entities =~= g.entities + Seq::new(h.occupants as nat, |j: int| farmer));
        assert(Hut { occupants: 0, ..h } == h);
    }
    lemma_farmers_added(g.entities, farmer, h.occupants as nat, f);
    assert(after.entities.take(g.entities.len() as int) =~= g.entities);
    assert forall|k: int| g.entities.len() <= k < after.entities.len() implies {
        let e = #[trigger] after.entities[k];
        &&& e.faction == side
        &&& e.job == Job::Farmer
        &&& e.hp == e.max_hp
        &&& e.hp == max_hp_for_spec(side, Job::Farmer)
        &&& exists|d: Coord|
            e.pos == #[trigger] tile_center_spec(d) && within_spec(d, t, 1)
                && g.world.walkable_for(crate::chunk::NO_OWNER, d.0, d.1)
    } by {
        assert(after.entities[k] == farmer);
        assert(farmer.pos == tile_center_spec(door));
    }
}

/// A hut stays shut while somebody of the other side is near.
pub proof fn law_threatened_huts_stay_shut(g: GameView, t: Coord)
    requires
        g.world.hut(t.0, t.1) is Some,
        !is_safe(g.entities, t, side_of(g.world.hut(t.0, t.1)->0)),
    ensures
        g.opened(t) == g,
{
    reveal(GameView::opened);
    let f = side_of(g.world.hut(t.0, t.1)->0);
    let nine = F32 { bits: 0x4110_0000 };
    let i = choose|i: int|
        0 <= i < g.entities.len() && (#[trigger] g.entities[i]).faction != f
            && g.entities[i].pos.distance_squared_spec(tile_center_spec(t)).le_spec(
            nine.mul_spec(nine),
        );
    assert(g.entities[i].faction != f);
}


/// Every hut with somebody in it has a door.
pub open spec fn all_have_doors(w: WorldView, tiles: Seq<Coord>) -> bool {
    forall|k: int|
        0 <= k < tiles.len() ==> has_door(w, #[trigger] tiles[k]) || lodgers(
            w,
            tiles[k],
            Faction::Player,
        ) + lodgers(w, tiles[k], Faction::Enemy) == 0
}

proof fn lemma_opened_people(g: GameView, t: Coord, f: Faction)
    requires
        registered(g),
        g.hut_tiles.contains(t),
        all_have_doors(g.world, g.hut_tiles),
    ensures
        people(g.opened(t), f) == people(g, f),
        all_have_doors(g.opened(t).world, g.hut_tiles),
        g.opened(t).hut_tiles == g.hut_tiles,
{
    reveal(GameView::opened);
    assert(on(g.world, Layer::Hut, t));
    let h = g.world.hut(t.0, t.1)->0;
    let side = side_of(h);
    let after = g.opened(t);
    let j = g.hut_tiles.index_of(t);
    assert(g.hut_tiles[j] == t);
    if h.occupants > 0 && !crate::turn::in_danger(g.entities, tile_center_spec(t), side) {
        assert(lodgers(g.world, t, side) == h.occupants);
        assert(has_door(g.world, t));
        assert(is_safe(g.entities, t, side)) by {
            let nine = F32 { bits: 0x4110_0000 };
            assert forall|i: int| 0 <= i < g.entities.len() && (#[trigger] g.entities[i]).faction
                != side implies !g.entities[i].pos.distance_squared_spec(
                tile_center_spec(t),
            ).le_spec(nine.mul_spec(nine)) by {}
        }
        law_opening_lets_everyone_out(g, t, f);
        let door = crate::survey::adjacent_walkable_spec(after.world, t.0, t.1)->0;
        let farmer = EntityView::fresh(side, Job::Farmer, door);
        crate::casualties::lemma_full_health(side, Job::Farmer);
        assert(counts(farmer, f) == if f == side {
            1nat
        } else {
            0nat
        });
        assert(after.entities =~= g.entities + Seq::new(h.occupants as nat, |k: int| farmer));
        lemma_farmers_added(g.entities, farmer, h.occupants as nat, f);
        assert forall|u: Coord| u != t implies #[trigger] lodgers(after.world, u, f) == lodgers(
            g.world,
            u,
            f,
        ) by {
            assert(after.world.cell(u.0, u.1) == g.world.cell(u.0, u.1));
        }
        lemma_indoors_one(g.world, after.world, g.hut_tiles, t, f);
        assert(h.occupants as nat * 1 == h.occupants as nat);
        lemma_doors_stay(g.world, after.world, t, g.hut_tiles);
    }
}

proof fn lemma_doors_stay(a: WorldView, b: WorldView, t: Coord, tiles: Seq<Coord>)
    requires
        all_have_doors(a, tiles),
        forall|u: Coord| u != t ==> #[trigger] b.cell(u.0, u.1) == a.cell(u.0, u.1),
        a.hut(t.0, t.1) is Some,
        b.hut(t.0, t.1) is Some,
        b.hut(t.0, t.1)->0.occupants == 0,
        b.at(t.0, t.1) == (Cell { hut: b.hut(t.0, t.1), ..a.at(t.0, t.1) }),
    ensures
        all_have_doors(b, tiles),
{
    assert forall|k: int| 0 <= k < tiles.len() implies has_door(b, #[trigger] tiles[k]) || lodgers(
        b,
        tiles[k],
        Faction::Player,
    ) + lodgers(b, tiles[k], Faction::Enemy) == 0 by {
        let u = tiles[k];
        if has_door(a, u) {
            let i = choose|i: int|
                0 <= i < 8 && ((#[trigger] neighbor_spec(u, i)) matches Some(n) && a.walkable_for(
                    crate::chunk::NO_OWNER,
                    n.0,
                    n.1,
                ));
            let n = neighbor_spec(u, i)->0;
            if n != t {
                assert(b.cell(n.0, n.1) == a.cell(n.0, n.1));
            }
            assert(b.walkable_for(crate::chunk::NO_OWNER, n.0, n.1));
            assert(has_door(b, u)) by {
                assert(neighbor_spec(u, i) is Some);
            }
        } else if u != t {
            assert(b.cell(u.0, u.1) == a.cell(u.0, u.1));
        }
    }
}

proof fn lemma_all_opened_people(g: GameView, n: int, f: Faction)
    requires
        registered(g),
        0 <= n <= g.hut_tiles.len(),
        all_have_doors(g.world, g.hut_tiles),
    ensures
        people(g.all_opened(g.hut_tiles, n), f) == people(g, f),
        all_have_doors(g.all_opened(g.hut_tiles, n).world, g.hut_tiles),
        g.all_opened(g.hut_tiles, n).hut_tiles == g.hut_tiles,
    decreases n,
{
    if n > 0 {
        lemma_all_opened_people(g, n - 1, f);
        lemma_opened(g, g.hut_tiles, n - 1);
        let before = g.all_opened(g.hut_tiles, n - 1);
        assert(g.hut_tiles.contains(g.hut_tiles[n - 1]));
        lemma_opened_people(before, g.hut_tiles[n - 1], f);
    }
}

/// Coming out of the huts, nobody is lost and nobody is added: each side has as many people
/// as before, in the open and in huts together. (A hut with somebody in it must have a
/// door: a tile beside it that can be walked on.)
pub proof fn law_emerging_keeps_everyone(g: GameView, f: Faction)
    requires
        registered(g),
        all_have_doors(g.world, g.hut_tiles),
    ensures
        people(g.all_opened(g.hut_tiles, g.hut_tiles.len() as int), f) == people(g, f),
{
    lemma_all_opened_people(g, g.hut_tiles.len() as int, f);
}

// --- a tick ------------------------------------------------------------------------------

proof fn lemma_headcount_push(es: Seq<EntityView>, e: EntityView, f: Faction)
    ensures
        headcount(es.push(e), f) == headcount(es, f) + if e.faction == f {
            1nat
        } else {
            0nat
        },
{
    assert(es.push(e).drop_last() =~= es);
}

proof fn lemma_grown_people(g: GameView, i: int, step: F32)
    requires
        registered(g),
    ensures
        g.grown_from(i, step).entities == g.entities,
        g.grown_from(i, step).hut_tiles == g.hut_tiles,
        same_lodgers(g.world, g.grown_from(i, step).world),
    decreases g.saplings.len() - i,
{
    if 0 <= i < g.saplings.len() {
        let s = g.saplings[i];
        let grow = s.grow.add_spec(step);
        let rest = swap_removed(g.saplings, i);
        if !g.world.is_open_grass(s.tile.0, s.tile.1) {
            let next = GameView { saplings: rest, ..g };
            lemma_left_alone(g, next);
            lemma_grown_people(next, i, step);
        } else if (F32 { bits: crate::vec2::ONE }).le_spec(grow) {
            let (x, y) = s.tile;
            let tree = g.world.set_node(
                x,
                y,
                crate::chunk::Resource::Wood,
                crate::game::SAPLING_YIELD,
            );
            let land = g.world.with_tile(x, y);
            let node = crate::chunk::Node {
                kind: crate::chunk::Resource::Wood,
                amount: crate::game::SAPLING_YIELD,
            };
            lemma_tile(g.world, x, y);
            lemma_lodgers_tile(g.world, x, y);
            let c = Cell { node: Some(node), ..land.at(x, y) };
            lemma_lodgers_edit(land, x, y, c);
            lemma_lodgers_chain(g.world, land, tree);
            crate::register::lemma_edit_alike(land, x, y, c);
            let next = GameView { world: tree, saplings: rest, ..g };
            lemma_left_alone(g, next);
            lemma_grown_people(next, i, step);
            lemma_lodgers_chain(g.world, tree, g.grown_from(i, step).world);
        } else {
            let next = GameView {
                saplings: g.saplings.update(i, crate::game::Sapling { tile: s.tile, grow }),
                ..g
            };
            lemma_left_alone(g, next);
            lemma_grown_people(next, i + 1, step);
        }
    }
}

proof fn lemma_raised(es: Seq<EntityView>, more: Seq<EntityView>, f: Faction)
    requires
        all_afoot(es),
        more == es || (exists|e: EntityView|
            more == #[trigger] es.push(e) && !e.slain() && !e.sheltered),
    ensures
        all_afoot(more),
        afoot(more, f, more.len() as int) + headcount(es, f) == afoot(es, f, es.len() as int)
            + headcount(more, f),
        headcount(es, f) <= headcount(more, f),
{
    if more != es {
        let e = choose|e: EntityView|
            more == #[trigger] es.push(e) && !e.slain() && !e.sheltered;
        lemma_afoot_push(es, e, f);
        lemma_headcount_push(es, e, f);
        assert forall|k: int| 0 <= k < more.len() implies !(#[trigger] more[k]).slain()
            && !more[k].sheltered by {
            if k < es.len() {
                assert(more[k] == es[k]);
            }
        }
    }
}

/// How many of the faction are born in the tick.
pub open spec fn born(g: GameView, dt: F32, sim: (i32, i32, i32, i32), f: Faction) -> int {
    headcount(g.at_blows(dt, sim).entities, f) - headcount(g.entities, f)
}

proof fn lemma_prepared_people(g: GameView, dt: F32, sim: (i32, i32, i32, i32), f: Faction)
    requires
        registered(g),
        all_afoot(g.entities),
    ensures
        ({
            let ready = g.prepared(dt, sim);
            let births = headcount(ready.entities, f) - headcount(g.entities, f);
            &&& 0 <= births <= 1
            &&& people(ready, f) == people(g, f) + births
            &&& all_afoot(ready.entities)
            &&& registered(ready)
        }),
{
    lemma_prepared(g, dt, sim);
    let seen = g.surveyed(sim);
    if let Some(b) = g.bounds(sim, g.entities.len() as int) {
        let m = crate::game::ENSURE_MARGIN as int;
        lemma_lodgers_region(
            g.world,
            crate::grid::shift_spec(b.0, -m),
            crate::grid::shift_spec(b.1, -m),
            crate::grid::shift_spec(b.2, m),
            crate::grid::shift_spec(b.3, m),
        );
        crate::register::lemma_region(
            g.world,
            crate::grid::shift_spec(b.0, -m),
            crate::grid::shift_spec(b.1, -m),
            crate::grid::shift_spec(b.2, m),
            crate::grid::shift_spec(b.3, m),
        );
    }
    lemma_left_alone(g, seen);
    let first = seen.enemy_raised(dt);
    let raised = first.player_raised(dt);
    lemma_births(seen, dt);
    lemma_births(first, dt);
    lemma_left_alone(seen, first);
    lemma_left_alone(first, raised);
    lemma_raised(seen.entities, first.entities, f);
    lemma_raised(first.entities, raised.entities, f);
    if first.entities != seen.entities {
        lemma_headcount_push(seen.entities, first.entities.last(), f);
    }
    if raised.entities != first.entities {
        lemma_headcount_push(first.entities, raised.entities.last(), f);
    }
    let step = dt.div_spec(F32 { bits: crate::game::SAPLING_GROW_TIME });
    lemma_grown_people(raised, 0, step);
    let ready = g.prepared(dt, sim);
    lemma_lodgers_chain(g.world, raised.world, ready.world);
    lemma_indoors_kept(g.world, ready.world, g.hut_tiles, f);
}

/// A birth adds one unit of the side, alive and in the open.
proof fn lemma_births(g: GameView, dt: F32)
    ensures
        ({
            let them = g.enemy_raised(dt);
            let us = g.player_raised(dt);
            &&& them.world == g.world && us.world == g.world
            &&& them.hut_tiles == g.hut_tiles && us.hut_tiles == g.hut_tiles
            &&& them.cave_tiles == g.cave_tiles && us.cave_tiles == g.cave_tiles
            &&& them.player_house_tiles == g.player_house_tiles && us.player_house_tiles
                == g.player_house_tiles
            &&& them.entities == g.entities || (them.entities == g.entities.push(
                them.entities.last(),
            ) && them.entities.last().faction == Faction::Enemy && !them.entities.last().slain()
                && !them.entities.last().sheltered)
            &&& us.entities == g.entities || (us.entities == g.entities.push(us.entities.last())
                && us.entities.last().faction == Faction::Player && !us.entities.last().slain()
                && !us.entities.last().sheltered)
        }),
{
    reveal(GameView::enemy_raised);
    reveal(GameView::player_raised);
    crate::casualties::lemma_full_health(Faction::Player, Job::Farmer);
    crate::casualties::lemma_full_health(Faction::Player, Job::Knight);
    crate::casualties::lemma_full_health(Faction::Enemy, Job::Farmer);
    crate::casualties::lemma_full_health(Faction::Enemy, Job::Knight);
}


/// Fighting turns people round, and no more.
proof fn lemma_clash_people(
    w: WorldView,
    es: Seq<EntityView>,
    sim: (i32, i32, i32, i32),
    dt: F32,
    n: int,
)
    requires
        0 <= n <= es.len(),
    ensures
        ({
            let c = crate::battle::clash_spec(w, es, sim, dt, n);
            &&& c.entities.len() == es.len()
            &&& forall|k: int|
                0 <= k < es.len() ==> (#[trigger] c.entities[k]).faction == es[k].faction
                    && c.entities[k].sheltered == es[k].sheltered
        }),
    decreases n,
{
    if n > 0 {
        lemma_clash_people(w, es, sim, dt, n - 1);
    }
}

proof fn lemma_dead_and_afoot(es: Seq<EntityView>, was: Seq<EntityView>, f: Faction, n: int)
    requires
        es.len() == was.len(),
        0 <= n <= es.len(),
        all_afoot(was),
        forall|k: int|
            0 <= k < es.len() ==> (#[trigger] es[k]).faction == was[k].faction && !es[k].sheltered,
    ensures
        afoot(es, f, n) + dead_from(es, 0, f) == afoot(was, f, n) + dead_from(es, n, f),
    decreases n,
{
    if n > 0 {
        lemma_dead_and_afoot(es, was, f, n - 1);
        assert(es[n - 1].faction == was[n - 1].faction);
        assert(!was[n - 1].slain());
    }
}

proof fn lemma_struck_people(g: GameView, dt: F32, sim: (i32, i32, i32, i32), f: Faction)
    requires
        registered(g),
        all_afoot(g.entities),
    ensures
        ({
            let n = g.entities.len() as int;
            let struck = g.struck(
                crate::battle::clash_spec(g.world, g.entities, sim, dt, n),
            );
            &&& people(struck, f) + dead_from(struck.entities, 0, f) == people(g, f)
            &&& registered(struck)
            &&& struck.entities.len() == g.entities.len()
            &&& forall|k: int| 0 <= k < n ==> !(#[trigger] struck.entities[k]).sheltered
        }),
{
    let n = g.entities.len() as int;
    let c = crate::battle::clash_spec(g.world, g.entities, sim, dt, n);
    let struck = g.struck(c);
    lemma_clash_people(g.world, g.entities, sim, dt, n);
    crate::register::lemma_walls_hit(g.world, c.walls, c.walls.len() as int);
    lemma_left_alone(g, struck);
    lemma_lodgers_walls(g.world, c.walls, c.walls.len() as int);
    lemma_indoors_kept(g.world, struck.world, g.hut_tiles, f);
    assert forall|k: int| 0 <= k < n implies (#[trigger] struck.entities[k]).faction
        == g.entities[k].faction && !struck.entities[k].sheltered by {
        assert(c.entities[k].faction == g.entities[k].faction);
        assert(!g.entities[k].sheltered);
    }
    lemma_dead_and_afoot(struck.entities, g.entities, f, n);
    assert(dead_from(struck.entities, n, f) == 0);
}

proof fn lemma_hut_hit_people(g: GameView, t: Coord, dmg: F32, f: Faction)
    requires
        registered(g),
    ensures
        people(g.hut_hit(t, dmg), f) + (match g.world.hut_falls(t.0, t.1, dmg) {
            Some(h) => if (h.owner == owner_of_spec(Faction::Player)) == (f == Faction::Player) {
                h.occupants as nat
            } else {
                0nat
            },
            None => 0nat,
        }) == people(g, f),
{
    reveal(GameView::hut_hit);
    let after = g.hut_hit(t, dmg);
    if let Some(hut) = g.world.hut(t.0, t.1) {
        let c = g.world.at(t.0, t.1);
        assert(on(g.world, Layer::Hut, t));
        if g.world.hut_falls(t.0, t.1, dmg) is Some {
            let gone = Cell { hut: None, ..c };
            let left = without(g.hut_tiles, t);
            crate::register::lemma_without(g.hut_tiles, t);
            assert forall|k: int| 0 <= k < left.len() implies lodgers(
                after.world,
                #[trigger] left[k],
                f,
            ) == lodgers(g.world, left[k], f) by {
                let u = left[k];
                assert(left.contains(u));
                law_edits_are_local(g.world, t.0, t.1, gone, u.0, u.1);
            }
            lemma_indoors_same(after.world, g.world, left, f);
            lemma_indoors_without(g.world, g.hut_tiles, t, f);
        } else {
            let hurt = Hut { hp: hut.hp.sub_spec(dmg), ..hut };
            lemma_lodgers_edit(g.world, t.0, t.1, Cell { hut: Some(hurt), ..c });
            lemma_indoors_kept(g.world, after.world, g.hut_tiles, f);
        }
    }
}

proof fn lemma_huts_hit_people(g: GameView, huts: Seq<(Coord, F32)>, n: int, f: Faction)
    requires
        registered(g),
    ensures
        people(g.huts_hit(huts, n), f) + crate::casualties::trapped(g, huts, n, f) == people(g, f),
        g.huts_hit(huts, n).entities == g.entities,
    decreases n,
{
    crate::turn::lemma_hits_spare_units(g, huts, n);
    if n > 0 {
        lemma_huts_hit_people(g, huts, n - 1, f);
        crate::register::lemma_huts_hit(g, huts, n - 1);
        lemma_hut_hit_people(g.huts_hit(huts, n - 1), huts[n - 1].0, huts[n - 1].1, f);
    }
}

/// Whoever hides does so in a hut of their own side that has room; no step hides anybody
/// by itself.
pub proof fn law_hiding_places(
    s: SceneView,
    e: EntityView,
    rng: u64,
    uses: Map<u64, u32>,
    acting: bool,
    under: bool,
    dt: F32,
)
    ensures
        ({
            let step = ai_spec(s, e, rng, uses, acting, under, dt);
            &&& step.e.sheltered == e.sheltered
            &&& step.event matches Some(StepEvent::Hide(t)) ==> {
                &&& e.job == Job::Farmer
                &&& s.huts.contains(t)
                &&& crate::grid::adjacent_spec(e.tile(), t)
                &&& s.world.hut(t.0, t.1) matches Some(h) && side_of(h) == e.faction && h.occupants
                    < 4
            }
        }),
{
    reveal(ai_spec);
    let owner = owner_of_spec(e.faction);
    crate::survey::law_nearest(
        s.huts,
        e.tile(),
        crate::behavior::shelters(s.world, owner),
    );
    let later = EntityView { repath: e.repath.sub_spec(dt), ..e };
    assert(later.tile() == e.tile());
    if e.job == Job::Knight {
        if !under {
            lemma_soldier_hides(s, later, rng, uses, owner, acting, dt);
        }
    } else {
        lemma_farmer_hides(s, later, rng, uses, owner, dt);
    }
}

proof fn lemma_soldier_hides(
    s: SceneView,
    e: EntityView,
    rng: u64,
    uses: Map<u64, u32>,
    owner: u8,
    acting: bool,
    dt: F32,
)
    ensures
        ({
            let step = crate::knight::soldier_spec(s, e, rng, uses, owner, acting, dt);
            step.e.sheltered == e.sheltered && !(step.event matches Some(StepEvent::Hide(t)))
        }),
{
}

proof fn lemma_farmer_hides(
    s: SceneView,
    e: EntityView,
    rng: u64,
    uses: Map<u64, u32>,
    owner: u8,
    dt: F32,
)
    ensures
        ({
            let step = crate::farmer::gather_spec(s, e, rng, uses, owner, dt);
            &&& step.e.sheltered == e.sheltered
            &&& step.event matches Some(StepEvent::Hide(t)) ==> Some(t)
                == crate::survey::nearest_spec(
                s.huts,
                e.tile(),
                crate::behavior::shelters(s.world, owner),
            ) && crate::grid::adjacent_spec(e.tile(), t)
        }),
{
}

proof fn lemma_built_people(g: GameView, i: int, t: Coord, f: Faction)
    requires
        registered(g),
        0 <= i < g.entities.len(),
        crate::knight::is_tree(g.world, t),
    ensures
        ({
            let after = g.happened(i, Some(StepEvent::BuildHut(t)));
            people(after, f) == people(g, f) && after.entities == g.entities
        }),
{
    reveal(GameView::happened);
    let after = g.happened(i, Some(StepEvent::BuildHut(t)));
    let w = g.world;
    let owner = owner_of_spec(g.entities[i].faction);
    lemma_tile(w, t.0, t.1);
    lemma_lodgers_tile(w, t.0, t.1);
    crate::register::lemma_here(w, t.0, t.1);
    let land = w.with_tile(t.0, t.1);
    let hut = Hut { owner, hp: F32 { bits: crate::turn::HUT_MAX_HP }, occupants: 0 };
    let c = Cell { node: None, hut: Some(hut), ..land.at(t.0, t.1) };
    assert forall|u: Coord| #[trigger] lodgers(after.world, u, f) == lodgers(w, u, f) by {
        law_edits_are_local(land, t.0, t.1, c, u.0, u.1);
        assert(lodgers(land, u, f) == lodgers(w, u, f));
    }
    assert forall|k: int| 0 <= k < g.hut_tiles.len() implies lodgers(
        after.world,
        #[trigger] g.hut_tiles[k],
        f,
    ) == lodgers(w, g.hut_tiles[k], f) by {}
    lemma_indoors_same(after.world, w, g.hut_tiles, f);
    assert(g.hut_tiles.push(t).drop_last() =~= g.hut_tiles);
    assert(lodgers(after.world, t, f) == 0) by {
        law_edits_are_local(land, t.0, t.1, c, t.0, t.1);
    }
}

proof fn lemma_hidden_people(g: GameView, i: int, t: Coord, f: Faction)
    requires
        registered(g),
        0 <= i < g.entities.len(),
        !g.entities[i].slain(),
        !g.entities[i].sheltered,
        g.hut_tiles.contains(t),
        g.world.hut(t.0, t.1) matches Some(h) && side_of(h) == g.entities[i].faction && h.occupants
            < 4,
    ensures
        ({
            let after = g.happened(i, Some(StepEvent::Hide(t)));
            &&& people(after, f) == people(g, f)
            &&& after.entities == g.entities.update(i, after.entities[i])
        }),
{
    reveal(GameView::happened);
    let after = g.happened(i, Some(StepEvent::Hide(t)));
    let w = g.world;
    let h = w.hut(t.0, t.1)->0;
    let fuller = Hut { occupants: (h.occupants + 1) as u8, ..h };
    let c = Cell { hut: Some(fuller), ..w.at(t.0, t.1) };
    let e = g.entities[i];
    let hidden = EntityView { sheltered: true, ..e };
    lemma_afoot_update(g.entities, i, hidden, f, g.entities.len() as int);
    assert forall|u: Coord| u != t implies #[trigger] lodgers(after.world, u, f) == lodgers(
        w,
        u,
        f,
    ) by {
        law_edits_are_local(w, t.0, t.1, c, u.0, u.1);
    }
    law_edits_are_local(w, t.0, t.1, c, t.0, t.1);
    lemma_indoors_one(w, after.world, g.hut_tiles, t, f);
    assert(after.entities == g.entities.update(i, hidden));
}

proof fn lemma_happened_people(g: GameView, i: int, event: Option<StepEvent>, f: Faction)
    requires
        registered(g),
        0 <= i < g.entities.len(),
        !g.entities[i].slain(),
        !g.entities[i].sheltered,
        event matches Some(StepEvent::BuildHut(t)) ==> crate::knight::is_tree(g.world, t),
        event matches Some(StepEvent::Hide(t)) ==> g.hut_tiles.contains(t) && (g.world.hut(
            t.0,
            t.1,
        ) matches Some(h) && side_of(h) == g.entities[i].faction && h.occupants < 4),
    ensures
        ({
            let after = g.happened(i, event);
            &&& people(after, f) == people(g, f)
            &&& after.entities.len() == g.entities.len()
            &&& forall|k: int|
                0 <= k < g.entities.len() && k != i ==> #[trigger] after.entities[k]
                    == g.entities[k]
        }),
{
    reveal(GameView::happened);
    let after = g.happened(i, event);
    let w = g.world;
    let owner = owner_of_spec(g.entities[i].faction);
    match event {
        Some(StepEvent::Harvest(t)) => {
            if let Some(n) = w.node(t.0, t.1) {
                let left = if n.amount <= 1 {
                    None
                } else {
                    Some(crate::chunk::Node { amount: (n.amount - 1) as u32, ..n })
                };
                lemma_lodgers_edit(w, t.0, t.1, Cell { node: left, ..w.at(t.0, t.1) });
            }
            lemma_indoors_kept(w, after.world, g.hut_tiles, f);
        },
        Some(StepEvent::RaiseWall(t)) => {
            lemma_tile(w, t.0, t.1);
            lemma_lodgers_tile(w, t.0, t.1);
            let land = w.with_tile(t.0, t.1);
            let wall = crate::chunk::Wall { owner, hp: F32 { bits: crate::game::WALL_MAX_HP } };
            lemma_lodgers_edit(land, t.0, t.1, Cell { wall: Some(wall), ..land.at(t.0, t.1) });
            lemma_lodgers_chain(w, land, after.world);
            lemma_indoors_kept(w, after.world, g.hut_tiles, f);
        },
        Some(StepEvent::Demolish(t)) => {
            if w.loaded(t.0, t.1) {
                lemma_lodgers_edit(w, t.0, t.1, Cell { node: None, ..w.at(t.0, t.1) });
            }
            lemma_indoors_kept(w, after.world, g.hut_tiles, f);
        },
        Some(StepEvent::BuildHut(t)) => {
            lemma_built_people(g, i, t, f);
        },
        Some(StepEvent::Hide(t)) => {
            lemma_hidden_people(g, i, t, f);
        },
        _ => {},
    }
}

proof fn lemma_thought_people(
    g: GameView,
    uses: Map<u64, u32>,
    turn: TurnView,
    n: int,
    f: Faction,
)
    requires
        registered(g),
        0 <= n <= g.entities.len(),
        forall|k: int| 0 <= k < g.entities.len() ==> !(#[trigger] g.entities[k]).sheltered,
    ensures
        ({
            let after = g.thought(uses, turn, n).0;
            &&& people(after, f) == people(g, f)
            &&& after.entities.len() == g.entities.len()
            &&& forall|k: int|
                n <= k < g.entities.len() ==> #[trigger] after.entities[k] == g.entities[k]
        }),
    decreases n,
{
    if n > 0 {
        lemma_thought_people(g, uses, turn, n - 1, f);
        crate::register::lemma_thought(g, uses, turn, n - 1);
        let (before, u) = g.thought(uses, turn, n - 1);
        reveal(GameView::moved);
        let i = n - 1;
        let e = before.entities[i];
        assert(e == g.entities[i]);
        if crate::game::in_sim_spec(turn.sim, e.tile()) && !e.slain() {
            let under = match e.faction {
                Faction::Player => turn.player_under,
                Faction::Enemy => turn.enemy_under,
            };
            let scene = before.scene(turn, e.faction);
            let step = ai_spec(scene, e, before.rng, u, turn.acting[i], under, turn.dt);
            lemma_huts_from_trees(scene, e, before.rng, u, turn.acting[i], under, turn.dt);
            law_hiding_places(scene, e, before.rng, u, turn.acting[i], under, turn.dt);
            crate::casualties::lemma_step_spares(
                scene,
                e,
                before.rng,
                u,
                turn.acting[i],
                under,
                turn.dt,
            );
            let stepped = GameView {
                entities: before.entities.update(i, step.e),
                rng: step.rng,
                ..before
            };
            lemma_left_alone(before, stepped);
            lemma_afoot_update(before.entities, i, step.e, f, before.entities.len() as int);
            assert(people(stepped, f) == people(before, f));
            lemma_happened_people(stepped, i, step.event, f);
        }
    }
}

proof fn lemma_cleared_people(g: GameView, i: int, f: Faction)
    requires
        0 <= i <= g.entities.len(),
    ensures
        people(g.cleared_from(i), f) == people(g, f),
        g.cleared_from(i).world == g.world,
        g.cleared_from(i).hut_tiles == g.hut_tiles,
    decreases g.entities.len() - i,
{
    if i < g.entities.len() {
        let e = g.entities[i];
        if e.slain() || e.sheltered {
            let rest = swap_removed(g.entities, i);
            lemma_afoot_swap(g.entities, i, f);
            let next = if e.slain() {
                match e.faction {
                    Faction::Enemy => GameView {
                        entities: rest,
                        enemies_defeated: g.enemies_defeated.wrapping_add(1),
                        ..g
                    },
                    Faction::Player => GameView {
                        entities: rest,
                        units_lost: g.units_lost.wrapping_add(1),
                        ..g
                    },
                }
            } else {
                GameView { entities: rest, ..g }
            };
            lemma_cleared_people(next, i, f);
        } else {
            lemma_cleared_people(g, i + 1, f);
        }
    }
}

proof fn lemma_lodgers_reowned(w: WorldView, x: i32, y: i32, r: int, from: u8, to: u8)
    requires
        tidy(w),
    ensures
        same_lodgers(w, w.reown_walls_near(x, y, r, from, to)),
{
    let after = w.reown_walls_near(x, y, r, from, to);
    assert forall|t: Coord, f: Faction| lodgers(w, t, f) == lodgers(after, t, f) by {
        if after.loaded(t.0, t.1) {
            crate::world::lemma_place(t.0, t.1);
            let k = w.coords.index_of(crate::world::chunk_coord(t.0, t.1));
            let j = crate::world::local_index(t.0, t.1);
            assert(w.coords[k] == crate::world::chunk_coord(t.0, t.1));
            assert(w.cells[k].len() == crate::chunk::CHUNK_TILES);
            assert(after.cells[k][j] == w.reowned_cell(k, j, (x, y), r, from, to));
        }
    }
}

proof fn lemma_lodgers_handed(w: WorldView, village: Seq<Coord>, from: u8, to: u8, n: int)
    requires
        tidy(w),
    ensures
        same_lodgers(w, crate::capture::handed_over(w, village, from, to, n)),
    decreases n,
{
    if n > 0 {
        lemma_lodgers_handed(w, village, from, to, n - 1);
        crate::register::lemma_handed(w, village, from, to, n - 1);
        let before = crate::capture::handed_over(w, village, from, to, n - 1);
        let t = village[n - 1];
        lemma_tile(before, t.0, t.1);
        lemma_lodgers_tile(before, t.0, t.1);
        let land = before.with_tile(t.0, t.1);
        let c = Cell { house: to == 0, enemy_house: to != 0, ..land.at(t.0, t.1) };
        crate::register::lemma_edit(land, t.0, t.1, c);
        lemma_lodgers_edit(land, t.0, t.1, c);
        let converted = before.convert_house(t.0, t.1, to);
        lemma_lodgers_chain(before, land, converted);
        lemma_lodgers_reowned(
            converted,
            t.0,
            t.1,
            crate::capture::WALL_CAPTURE_RADIUS as int,
            from,
            to,
        );
        let after = crate::capture::handed_over(w, village, from, to, n);
        lemma_lodgers_chain(before, converted, after);
        lemma_lodgers_chain(w, before, after);
    }
}

proof fn lemma_lodgers_villages(g: GameView, villages: Seq<Seq<Coord>>, n: int)
    requires
        tidy(g.world),
    ensures
        same_lodgers(g.world, g.won(villages, n).world),
        same_lodgers(g.world, g.fallen(villages, n).world),
    decreases n,
{
    if n > 0 {
        lemma_lodgers_villages(g, villages, n - 1);
        crate::register::lemma_villages(g, villages, n - 1);
        let v = villages[n - 1];
        let a = g.won(villages, n - 1).world;
        let b = g.fallen(villages, n - 1).world;
        lemma_lodgers_handed(a, v, 1, 0, v.len() as int);
        lemma_lodgers_handed(b, v, 0, 1, v.len() as int);
        lemma_lodgers_chain(
            g.world,
            a,
            crate::capture::handed_over(a, v, 1, 0, v.len() as int),
        );
        lemma_lodgers_chain(
            g.world,
            b,
            crate::capture::handed_over(b, v, 0, 1, v.len() as int),
        );
    }
}

proof fn lemma_captured_people(g: GameView, f: Faction)
    requires
        registered(g),
    ensures
        people(g.captured(), f) == people(g, f),
{
    reveal(GameView::captured);
    let theirs = crate::village::cluster_spec(g.world.enemy_house_tiles);
    let ours = crate::village::cluster_spec(g.player_house_tiles);
    let won = g.won(theirs, theirs.len() as int);
    crate::register::lemma_villages(g, theirs, theirs.len() as int);
    crate::register::lemma_villages(won, ours, ours.len() as int);
    lemma_lodgers_villages(g, theirs, theirs.len() as int);
    lemma_lodgers_villages(won, ours, ours.len() as int);
    let after = won.fallen(ours, ours.len() as int);
    lemma_lodgers_chain(g.world, won.world, after.world);
    crate::casualties::lemma_captured_spares(g);
    let h = g.captured();
    assert forall|t: Coord, x: Faction| lodgers(g.world, t, x) == lodgers(h.world, t, x) by {
        assert(lodgers(g.world, t, x) == lodgers(after.world, t, x));
        assert(h.world.cell(t.0, t.1) == after.world.cell(t.0, t.1));
    }
    lemma_indoors_kept(g.world, h.world, g.hut_tiles, f);
}

impl GameView {
    /// The game when the huts are about to be opened in the tick.
    pub open spec fn at_the_doors(self, dt: F32, sim: (i32, i32, i32, i32)) -> GameView {
        let step = dt.min_spec(F32 { bits: MAX_STEP });
        let ready = self.at_blows(dt, sim);
        let n = ready.entities.len() as int;
        ready.fought(step, sim).thought(
            crate::turn::rosters(ready.entities, n),
            ready.turn(step, sim),
            n,
        ).0.cleared_from(0)
    }
}

/// Over a tick the number of a side's people, in the open and in huts together, changes by
/// the one it may have raised and by those that its foes' tally counts, and in no other way.
/// (A hut with somebody in it must have a door when the huts are opened, and the tallies
/// must still have room.)
pub proof fn law_people_are_accounted_for(
    g: GameView,
    dt: F32,
    sim: (i32, i32, i32, i32),
    f: Faction,
)
    requires
        registered(g),
        all_afoot(g.entities),
        all_have_doors(g.at_the_doors(dt, sim).world, g.at_the_doors(dt, sim).hut_tiles),
        g.enemies_defeated + g.slain_count(dt, sim, Faction::Enemy) + g.trapped_count(
            dt,
            sim,
            Faction::Enemy,
        ) <= u32::MAX,
        g.units_lost + g.slain_count(dt, sim, Faction::Player) + g.trapped_count(
            dt,
            sim,
            Faction::Player,
        ) <= u32::MAX,
    ensures
        ({
            let after = g.updated(dt, sim);
            let lost = match f {
                Faction::Player => after.units_lost - g.units_lost,
                Faction::Enemy => after.enemies_defeated - g.enemies_defeated,
            };
            &&& 0 <= born(g, dt, sim, f) <= 1
            &&& 0 <= lost
            &&& people(after, f) + lost == people(g, f) + born(g, dt, sim, f)
        }),
{
    let step = dt.min_spec(F32 { bits: MAX_STEP });
    let ready = g.prepared(step, sim);
    lemma_prepared_people(g, step, sim, f);
    let n = ready.entities.len() as int;
    let c = crate::battle::clash_spec(ready.world, ready.entities, sim, step, n);
    let struck = ready.struck(c);
    lemma_struck_people(ready, step, sim, f);
    lemma_huts_hit_people(struck, c.huts, c.huts.len() as int, f);
    let fought = ready.fought(step, sim);
    crate::register::lemma_huts_hit(struck, c.huts, c.huts.len() as int);
    assert(fought.entities == struck.entities);
    let uses = crate::turn::rosters(ready.entities, n);
    let turn = ready.turn(step, sim);
    lemma_thought_people(fought, uses, turn, n, f);
    crate::register::lemma_thought(fought, uses, turn, n);
    let acted = fought.thought(uses, turn, n).0;
    lemma_cleared_people(acted, 0, f);
    lemma_cleared(acted, 0);
    let alive = acted.cleared_from(0);
    assert(alive == g.at_the_doors(dt, sim));
    let all = alive.hut_tiles.len() as int;
    lemma_all_opened_people(alive, all, f);
    lemma_opened(alive, alive.hut_tiles, all);
    let out = alive.all_opened(alive.hut_tiles, all);
    lemma_left_alone(out, out.rallied());
    lemma_captured_people(out.rallied(), f);
    crate::casualties::law_tick_counts_the_slain(g, dt, sim);
}

} // verus!
