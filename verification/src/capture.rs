//! Villages that change hands.

use vstd::prelude::*;
use crate::chunk::Cell;
use crate::float::F32;
use crate::game::{Game, GameView};
use crate::unit::{Entity, EntityView, Faction};
use crate::vec2::{tile_center, tile_center_spec, Coord};
use crate::village::{cluster, cluster_spec, views, village_center, village_center_spec};
use crate::world::{tiles_with, Layer, World, WorldView};

verus! {

/// A unit this close to a village's houses counts as present there: 5 tiles.
pub const CAPTURE_RADIUS: u32 = 0x40a0_0000;

/// Walls this close to a house that falls change hands with it.
pub const WALL_CAPTURE_RADIUS: i32 = 4;

/// The square of the radius.
pub open spec fn presence_squared() -> F32 {
    (F32 { bits: CAPTURE_RADIUS }).mul_spec(F32 { bits: CAPTURE_RADIUS })
}

/// The unit stands in the village.
pub open spec fn inside_spec(e: EntityView, village: Seq<Coord>) -> bool {
    exists|k: int|
        0 <= k < village.len() && e.pos.distance_squared_spec(
            tile_center_spec(#[trigger] village[k]),
        ).le_spec(presence_squared())
}

fn inside(e: &Entity, village: &Vec<Coord>) -> (b: bool)
    ensures
        b == inside_spec(e@, village@),
{
    let r: F32 = F32 { bits: CAPTURE_RADIUS };
    let r2: F32 = r.mul(r);
    let mut k: usize = 0;
    while k < village.len()
        invariant
            k <= village.len(),
            r2 == presence_squared(),
            forall|j: int|
                0 <= j < k ==> !e@.pos.distance_squared_spec(
                    tile_center_spec(#[trigger] village@[j]),
                ).le_spec(r2),
        decreases village.len() - k,
    {
        if e.pos.distance_squared(tile_center(village[k])).le(r2) {
            assert(e@.pos.distance_squared_spec(tile_center_spec(village@[k as int])).le_spec(r2));
            return true;
        }
        k = k + 1;
    }
    false
}

/// A village without a unit of its owner's, but with one of the other side's.
pub open spec fn undefended(entities: Seq<EntityView>, village: Seq<Coord>, owner: Faction) -> bool {
    &&& forall|i: int|
        0 <= i < entities.len() && (#[trigger] entities[i]).faction == owner ==> !inside_spec(
            entities[i],
            village,
        )
    &&& exists|i: int|
        0 <= i < entities.len() && (#[trigger] entities[i]).faction != owner && inside_spec(
            entities[i],
            village,
        )
}

pub open spec fn any_undefended(
    entities: Seq<EntityView>,
    villages: Seq<Seq<Coord>>,
    owner: Faction,
) -> bool {
    exists|k: int| 0 <= k < villages.len() && undefended(entities, #[trigger] villages[k], owner)
}

/// The first `n` houses of a village, and the walls near them, handed over.
pub open spec fn handed_over(
    w: WorldView,
    village: Seq<Coord>,
    from: u8,
    to: u8,
    n: int,
) -> WorldView
    decreases n,
{
    if n <= 0 {
        w
    } else {
        let t = village[n - 1];
        handed_over(w, village, from, to, n - 1).convert_house(t.0, t.1, to).reown_walls_near(
            t.0,
            t.1,
            WALL_CAPTURE_RADIUS as int,
            from,
            to,
        )
    }
}

fn hand_over(world: &mut World, village: &Vec<Coord>, from: u8, to: u8)
    requires
        old(world).wf(),
    ensures
        final(world).wf(),
        final(world)@ == handed_over(old(world)@, village@, from, to, village@.len() as int),
{
    let mut i: usize = 0;
    while i < village.len()
        invariant
            i <= village.len(),
            world.wf(),
            world@ == handed_over(old(world)@, village@, from, to, i as int),
        decreases village.len() - i,
    {
        let t: Coord = village[i];
        world.convert_house(t.0, t.1, to);
        world.reown_walls_near(t.0, t.1, WALL_CAPTURE_RADIUS, from, to);
        i = i + 1;
    }
}

impl GameView {
    /// The first `n` enemy villages, those overrun by the player handed over.
    pub open spec fn won(self, villages: Seq<Seq<Coord>>, n: int) -> GameView
        decreases n,
    {
        if n <= 0 {
            self
        } else {
            let g = self.won(villages, n - 1);
            let v = villages[n - 1];
            if undefended(self.entities, v, Faction::Enemy) {
                GameView { world: handed_over(g.world, v, 1, 0, v.len() as int), ..g }
            } else {
                g
            }
        }
    }

    /// The first `n` player villages, those overrun by the enemy handed over; the
    /// knights are rallied to the one that fell last.
    pub open spec fn fallen(self, villages: Seq<Seq<Coord>>, n: int) -> GameView
        decreases n,
    {
        if n <= 0 {
            self
        } else {
            let g = self.fallen(villages, n - 1);
            let v = villages[n - 1];
            if undefended(self.entities, v, Faction::Player) {
                GameView {
                    world: handed_over(g.world, v, 0, 1, v.len() as int),
                    rally_point: Some(village_center_spec(v)),
                    ..g
                }
            } else {
                g
            }
        }
    }

    #[verifier::opaque]
    pub open spec fn captured(self) -> GameView {
        let theirs = cluster_spec(self.world.enemy_house_tiles);
        let ours = cluster_spec(self.player_house_tiles);
        let g = self.won(theirs, theirs.len() as int).fallen(ours, ours.len() as int);
        if any_undefended(self.entities, theirs, Faction::Enemy) || any_undefended(
            self.entities,
            ours,
            Faction::Player,
        ) {
            GameView {
                world: g.world.rescanned(),
                player_house_tiles: tiles_with(g.world.coords, g.world.cells, Layer::House),
                ..g
            }
        } else {
            g
        }
    }
}

impl Game {
    /// True when `owner` has no unit within capture range of the village but at
    /// least one opposing unit is standing in it.
    pub fn village_undefended(&self, village: &Vec<Coord>, owner: Faction) -> (r: bool)
        ensures
            r == undefended(self@.entities, village@, owner),
    {
        let mut foe_present: bool = false;
        let mut i: usize = 0;
        while i < self.entities.len()
            invariant
                i <= self.entities.len(),
                forall|k: int|
                    0 <= k < i && (#[trigger] self@.entities[k]).faction == owner ==> !inside_spec(
                        self@.entities[k],
                        village@,
                    ),
                foe_present == exists|k: int|
                    0 <= k < i && (#[trigger] self@.entities[k]).faction != owner && inside_spec(
                        self@.entities[k],
                        village@,
                    ),
            decreases self.entities.len() - i,
        {
            let ghost seen = foe_present;
            assert(self@.entities[i as int] == self.entities@[i as int]@);
            if inside(&self.entities[i], village) {
                if self.entities[i].faction == owner {
                    assert(self@.entities[i as int].faction == owner);
                    return false;
                }
                foe_present = true;
                assert(self@.entities[i as int].faction != owner);
            }
            i = i + 1;
        }
        foe_present
    }

    /// Per-village capture: if a village has no defenders of its owner left but
    /// an opposing unit stands in it, the attacker converts that village's
    /// houses (and nearby walls) to their own.
    pub fn resolve_captures(&mut self)
        requires
            old(self).wf(),
        ensures
            final(self).wf(),
            final(self)@ == old(self)@.captured(),
    {
        proof {
            reveal(GameView::captured);
        }
        let mut changed: bool = false;
        // Enemy villages overrun by the player.
        let theirs: Vec<Vec<Coord>> = cluster(self.world.enemy_house_tiles());
        let mut i: usize = 0;
        while i < theirs.len()
            invariant
                i <= theirs.len(),
                self.wf(),
                self@.entities == old(self)@.entities,
                self@.player_house_tiles == old(self)@.player_house_tiles,
                self@ == old(self)@.won(views(theirs@), i as int),
                changed == exists|k: int|
                    0 <= k < i && undefended(
                        old(self)@.entities,
                        #[trigger] views(theirs@)[k],
                        Faction::Enemy,
                    ),
            decreases theirs.len() - i,
        {
            assert(views(theirs@)[i as int] == theirs@[i as int]@);
            if self.village_undefended(&theirs[i], Faction::Enemy) {
                hand_over(&mut self.world, &theirs[i], 1, 0);
                changed = true;
            }
            i = i + 1;
        }
        let ghost mid = self@;
        // Player villages overrun by the enemy.
        let ours: Vec<Vec<Coord>> = cluster(&self.player_house_tiles);
        let mut i: usize = 0;
        while i < ours.len()
            invariant
                i <= ours.len(),
                self.wf(),
                self@.entities == old(self)@.entities,
                mid.entities == old(self)@.entities,
                self@ == mid.fallen(views(ours@), i as int),
                changed == (any_undefended(old(self)@.entities, views(theirs@), Faction::Enemy)
                    || exists|k: int|
                    0 <= k < i && undefended(
                        old(self)@.entities,
                        #[trigger] views(ours@)[k],
                        Faction::Player,
                    )),
            decreases ours.len() - i,
        {
            assert(views(ours@)[i as int] == ours@[i as int]@);
            if self.village_undefended(&ours[i], Faction::Player) {
                hand_over(&mut self.world, &ours[i], 0, 1);
                // Sound the alarm: rally every (simulated) knight to the fallen
                // village to come to their allies' aid and retake it.
                self.rally_point = Some(village_center(&ours[i]));
                changed = true;
            }
            i = i + 1;
        }
        if changed {
            self.world.rescan_enemy_houses();
            self.rescan_player_houses();
        }
    }
}

// --- what a capture does -----------------------------------------------------------

proof fn lemma_convert(w: WorldView, x: i32, y: i32, to: u8, u: i32, v: i32)
    requires
        w.wf(),
    ensures
        ({
            let after = w.convert_house(x, y, to);
            &&& after.wf()
            &&& after.loaded(x, y)
            &&& w.loaded(u, v) ==> after.loaded(u, v)
            &&& after.is_house(x, y) == (to == 0)
            &&& after.is_enemy_house(x, y) == (to != 0)
            &&& (u, v) != (x, y) && w.loaded(u, v) ==> after.cell(u, v) == w.cell(u, v)
        }),
{
    let t = w.with_tile(x, y);
    crate::world::lemma_ensured(w, crate::world::chunk_coord(x, y));
    let c = Cell { house: to == 0, enemy_house: to != 0, ..t.at(x, y) };
    crate::rules::law_edits_are_local(t, x, y, c, x, y);
    crate::rules::law_edits_are_local(t, x, y, c, u, v);
    if w.loaded(u, v) {
        let k = w.coords.index_of(crate::world::chunk_coord(u, v));
        assert(t.coords[k] == w.coords[k]);
        let j = t.coords.index_of(crate::world::chunk_coord(u, v));
        assert(t.coords[j] == w.coords[k]);
        assert(j == k);
    }
}

proof fn lemma_reown(w: WorldView, x: i32, y: i32, r: int, from: u8, to: u8, u: i32, v: i32)
    requires
        w.wf(),
    ensures
        ({
            let after = w.reown_walls_near(x, y, r, from, to);
            &&& after.wf()
            &&& after.loaded(u, v) == w.loaded(u, v)
            &&& after.is_house(u, v) == w.is_house(u, v)
            &&& after.is_enemy_house(u, v) == w.is_enemy_house(u, v)
        }),
{
    let after = w.reown_walls_near(x, y, r, from, to);
    crate::world::lemma_place(u, v);
    assert forall|i: int| 0 <= i < after.cells.len() implies (#[trigger] after.cells[i]).len()
        == crate::chunk::CHUNK_TILES by {
        assert(w.cells[i].len() == crate::chunk::CHUNK_TILES);
    }
    if w.loaded(u, v) {
        let k = w.coords.index_of(crate::world::chunk_coord(u, v));
        let j = crate::world::local_index(u, v);
        assert(w.cells[k].len() == crate::chunk::CHUNK_TILES);
        assert(after.cells[k][j] == w.reowned_cell(k, j, (x, y), r, from, to));
    }
}

/// A village that changes hands does so house by house: each of its first `n` houses
/// is the new owner's and no longer the old one's.
pub proof fn law_village_changes_hands(
    w: WorldView,
    village: Seq<Coord>,
    from: u8,
    to: u8,
    n: int,
    k: int,
)
    requires
        w.wf(),
        0 <= k < n <= village.len(),
    ensures
        handed_over(w, village, from, to, n).wf(),
        handed_over(w, village, from, to, n).is_house(village[k].0, village[k].1) == (to == 0),
        handed_over(w, village, from, to, n).is_enemy_house(village[k].0, village[k].1) == (to
            != 0),
        handed_over(w, village, from, to, n).loaded(village[k].0, village[k].1),
    decreases n,
{
    let t = village[n - 1];
    let h = village[k];
    if n > 1 {
        law_village_changes_hands(
            w,
            village,
            from,
            to,
            n - 1,
            if k < n - 1 {
                k
            } else {
                0
            },
        );
    }
    let before = handed_over(w, village, from, to, n - 1);
    lemma_convert(before, t.0, t.1, to, h.0, h.1);
    lemma_reown(
        before.convert_house(t.0, t.1, to),
        t.0,
        t.1,
        WALL_CAPTURE_RADIUS as int,
        from,
        to,
        h.0,
        h.1,
    );
}

/// The tile holds a house of that side's and none of the other's.
pub open spec fn held_by(w: WorldView, t: Coord, to: u8) -> bool {
    &&& w.loaded(t.0, t.1)
    &&& w.is_house(t.0, t.1) == (to == 0)
    &&& w.is_enemy_house(t.0, t.1) == (to != 0)
}

proof fn lemma_handed_wf(w: WorldView, village: Seq<Coord>, from: u8, to: u8, n: int)
    requires
        w.wf(),
        0 <= n <= village.len(),
    ensures
        handed_over(w, village, from, to, n).wf(),
{
    if n > 0 {
        law_village_changes_hands(w, village, from, to, n, 0);
    }
}

proof fn lemma_handed_elsewhere(
    w: WorldView,
    village: Seq<Coord>,
    from: u8,
    to: u8,
    n: int,
    t: Coord,
    side: u8,
)
    requires
        w.wf(),
        held_by(w, t, side),
        !village.contains(t),
        0 <= n <= village.len(),
    ensures
        held_by(handed_over(w, village, from, to, n), t, side),
    decreases n,
{
    if n > 0 {
        lemma_handed_elsewhere(w, village, from, to, n - 1, t, side);
        lemma_handed_wf(w, village, from, to, n - 1);
        let before = handed_over(w, village, from, to, n - 1);
        let h = village[n - 1];
        assert(h != t);
        lemma_convert(before, h.0, h.1, to, t.0, t.1);
        lemma_reown(
            before.convert_house(h.0, h.1, to),
            h.0,
            h.1,
            WALL_CAPTURE_RADIUS as int,
            from,
            to,
            t.0,
            t.1,
        );
    }
}

proof fn lemma_handed(w: WorldView, village: Seq<Coord>, from: u8, to: u8, t: Coord)
    requires
        w.wf(),
        village.contains(t),
    ensures
        held_by(handed_over(w, village, from, to, village.len() as int), t, to),
{
    let k = village.index_of(t);
    law_village_changes_hands(w, village, from, to, village.len() as int, k);
}

proof fn lemma_won(g: GameView, villages: Seq<Seq<Coord>>, n: int, k: int, t: Coord)
    requires
        g.world.wf(),
        0 <= n <= villages.len(),
        0 <= k < villages.len(),
        villages[k].contains(t),
        undefended(g.entities, villages[k], Faction::Enemy),
        forall|j: int|
            0 <= j < villages.len() && j != k ==> !(#[trigger] villages[j]).contains(t),
    ensures
        g.won(villages, n).world.wf(),
        k < n ==> held_by(g.won(villages, n).world, t, 0),
    decreases n,
{
    if n > 0 {
        lemma_won(g, villages, n - 1, k, t);
        let before = g.won(villages, n - 1).world;
        let v = villages[n - 1];
        lemma_handed_wf(before, v, 1, 0, v.len() as int);
        if n - 1 == k {
            lemma_handed(before, v, 1, 0, t);
        } else if k < n - 1 {
            lemma_handed_elsewhere(before, v, 1, 0, v.len() as int, t, 0);
        }
    }
}

proof fn lemma_fallen(g: GameView, villages: Seq<Seq<Coord>>, n: int)
    requires
        g.world.wf(),
        0 <= n <= villages.len(),
    ensures
        g.fallen(villages, n).world.wf(),
    decreases n,
{
    if n > 0 {
        lemma_fallen(g, villages, n - 1);
        let v = villages[n - 1];
        lemma_handed_wf(g.fallen(villages, n - 1).world, v, 0, 1, v.len() as int);
    }
}

proof fn lemma_fallen_elsewhere(
    g: GameView,
    villages: Seq<Seq<Coord>>,
    n: int,
    t: Coord,
    side: u8,
)
    requires
        g.world.wf(),
        0 <= n <= villages.len(),
        held_by(g.world, t, side),
        forall|j: int| 0 <= j < villages.len() ==> !(#[trigger] villages[j]).contains(t),
    ensures
        held_by(g.fallen(villages, n).world, t, side),
    decreases n,
{
    if n > 0 {
        lemma_fallen_elsewhere(g, villages, n - 1, t, side);
        lemma_fallen(g, villages, n - 1);
        let v = villages[n - 1];
        lemma_handed_elsewhere(
            g.fallen(villages, n - 1).world,
            v,
            0,
            1,
            v.len() as int,
            t,
            side,
        );
    }
}

proof fn lemma_lost(g: GameView, villages: Seq<Seq<Coord>>, n: int, k: int, t: Coord)
    requires
        g.world.wf(),
        0 <= k < n <= villages.len(),
        villages[k].contains(t),
        undefended(g.entities, villages[k], Faction::Player),
        forall|j: int|
            0 <= j < villages.len() && j != k ==> !(#[trigger] villages[j]).contains(t),
    ensures
        held_by(g.fallen(villages, n).world, t, 1),
    decreases n,
{
    lemma_fallen(g, villages, n - 1);
    let before = g.fallen(villages, n - 1).world;
    let v = villages[n - 1];
    if n - 1 == k {
        lemma_handed(before, v, 0, 1, t);
    } else {
        lemma_lost(g, villages, n - 1, k, t);
        lemma_handed_elsewhere(before, v, 0, 1, v.len() as int, t, 1);
    }
}

proof fn lemma_alarm(g: GameView, villages: Seq<Seq<Coord>>, n: int, k: int)
    requires
        0 <= k < n <= villages.len(),
        undefended(g.entities, villages[k], Faction::Player),
    ensures
        exists|j: int|
            k <= j < n && undefended(g.entities, #[trigger] villages[j], Faction::Player)
                && g.fallen(villages, n).rally_point == Some(village_center_spec(villages[j])),
    decreases n,
{
    if undefended(g.entities, villages[n - 1], Faction::Player) {
        assert(undefended(g.entities, villages[n - 1], Faction::Player));
    } else {
        lemma_alarm(g, villages, n - 1, k);
        let j = choose|j: int|
            k <= j < n - 1 && undefended(g.entities, #[trigger] villages[j], Faction::Player)
                && g.fallen(villages, n - 1).rally_point == Some(
                village_center_spec(villages[j]),
            );
        assert(undefended(g.entities, villages[j], Faction::Player));
    }
}

/// A house is in one village only.
proof fn lemma_one_village(tiles: Seq<Coord>, k: int, t: Coord)
    requires
        0 <= k < cluster_spec(tiles).len(),
        cluster_spec(tiles)[k].contains(t),
    ensures
        forall|j: int|
            0 <= j < cluster_spec(tiles).len() && j != k ==> !(#[trigger] cluster_spec(
                tiles,
            )[j]).contains(t),
{
    let all = cluster_spec(tiles);
    crate::village::law_villages(tiles);
    assert forall|j: int| 0 <= j < all.len() && j != k implies !(#[trigger] all[j]).contains(t) by {
        assert(crate::village::apart(all[j], all[k]));
        if all[j].contains(t) {
            let a = all[j].index_of(t);
            let b = all[k].index_of(t);
            assert(!crate::grid::within_spec(
                all[j][a],
                all[k][b],
                crate::village::CLUSTER_GAP as int,
            ));
        }
    }
}

/// No village holds what is not a house at all.
proof fn lemma_no_village(tiles: Seq<Coord>, t: Coord)
    requires
        !tiles.contains(t),
    ensures
        forall|j: int|
            0 <= j < cluster_spec(tiles).len() ==> !(#[trigger] cluster_spec(tiles)[j]).contains(t),
{
    let all = cluster_spec(tiles);
    crate::village::law_villages(tiles);
    assert forall|j: int| 0 <= j < all.len() implies !(#[trigger] all[j]).contains(t) by {
        if all[j].contains(t) {
            assert(crate::village::housed(all, t));
        }
    }
}

/// An enemy village with none of its own left but a unit of the player's in it is
/// the player's after the tick, house by house. (Houses that both sides list are
/// left out: there the enemy may take them straight back.)
pub proof fn law_undefended_village_is_taken(g: GameView, k: int, t: Coord)
    requires
        g.world.wf(),
        0 <= k < cluster_spec(g.world.enemy_house_tiles).len(),
        cluster_spec(g.world.enemy_house_tiles)[k].contains(t),
        undefended(g.entities, cluster_spec(g.world.enemy_house_tiles)[k], Faction::Enemy),
        !g.player_house_tiles.contains(t),
    ensures
        held_by(g.captured().world, t, 0),
        g.captured().player_house_tiles.contains(t),
{
    reveal(GameView::captured);
    let theirs = cluster_spec(g.world.enemy_house_tiles);
    let ours = cluster_spec(g.player_house_tiles);
    lemma_one_village(g.world.enemy_house_tiles, k, t);
    lemma_no_village(g.player_house_tiles, t);
    lemma_won(g, theirs, theirs.len() as int, k, t);
    let won = g.won(theirs, theirs.len() as int);
    lemma_fallen(won, ours, ours.len() as int);
    lemma_fallen_elsewhere(won, ours, ours.len() as int, t, 0);
    assert(any_undefended(g.entities, theirs, Faction::Enemy));
    let w = won.fallen(ours, ours.len() as int).world;
    lemma_listed(w, Layer::House, t);
}

/// A village of the player's with nobody left in it but the enemy is the enemy's
/// after the tick, house by house, and the knights are called to one that was lost.
pub proof fn law_undefended_village_is_lost(g: GameView, k: int, t: Coord)
    requires
        g.world.wf(),
        0 <= k < cluster_spec(g.player_house_tiles).len(),
        cluster_spec(g.player_house_tiles)[k].contains(t),
        undefended(g.entities, cluster_spec(g.player_house_tiles)[k], Faction::Player),
    ensures
        held_by(g.captured().world, t, 1),
        g.captured().world.enemy_house_tiles.contains(t),
        exists|j: int|
            0 <= j < cluster_spec(g.player_house_tiles).len() && undefended(
                g.entities,
                #[trigger] cluster_spec(g.player_house_tiles)[j],
                Faction::Player,
            ) && g.captured().rally_point == Some(
                village_center_spec(cluster_spec(g.player_house_tiles)[j]),
            ),
{
    reveal(GameView::captured);
    let theirs = cluster_spec(g.world.enemy_house_tiles);
    let ours = cluster_spec(g.player_house_tiles);
    lemma_one_village(g.player_house_tiles, k, t);
    lemma_won_wf(g, theirs, theirs.len() as int);
    let won = g.won(theirs, theirs.len() as int);
    lemma_fallen(won, ours, ours.len() as int);
    lemma_lost(won, ours, ours.len() as int, k, t);
    lemma_alarm(won, ours, ours.len() as int, k);
    assert(any_undefended(g.entities, ours, Faction::Player));
    let w = won.fallen(ours, ours.len() as int).world;
    lemma_listed(w, Layer::EnemyHouse, t);
    assert(g.captured().rally_point == won.fallen(ours, ours.len() as int).rally_point);
}

proof fn lemma_won_wf(g: GameView, villages: Seq<Seq<Coord>>, n: int)
    requires
        g.world.wf(),
        0 <= n <= villages.len(),
    ensures
        g.won(villages, n).world.wf(),
        g.won(villages, n).entities == g.entities,
    decreases n,
{
    if n > 0 {
        lemma_won_wf(g, villages, n - 1);
        let v = villages[n - 1];
        lemma_handed_wf(g.won(villages, n - 1).world, v, 1, 0, v.len() as int);
    }
}

/// While every village has a defender, or no intruder, nothing changes hands.
pub proof fn law_defended_villages_stay(g: GameView)
    requires
        !any_undefended(
            g.entities,
            cluster_spec(g.world.enemy_house_tiles),
            Faction::Enemy,
        ),
        !any_undefended(g.entities, cluster_spec(g.player_house_tiles), Faction::Player),
    ensures
        g.captured() == g,
{
    reveal(GameView::captured);
    let theirs = cluster_spec(g.world.enemy_house_tiles);
    let ours = cluster_spec(g.player_house_tiles);
    lemma_nothing_won(g, theirs, theirs.len() as int);
    lemma_nothing_lost(g, ours, ours.len() as int);
}

/// Every village that holds the tile has a defender, or no intruder.
spec fn safe(entities: Seq<EntityView>, villages: Seq<Seq<Coord>>, owner: Faction, t: Coord) -> bool {
    forall|j: int|
        0 <= j < villages.len() && (#[trigger] villages[j]).contains(t) ==> !undefended(
            entities,
            villages[j],
            owner,
        )
}

proof fn lemma_won_spares(g: GameView, villages: Seq<Seq<Coord>>, n: int, t: Coord, side: u8)
    requires
        g.world.wf(),
        0 <= n <= villages.len(),
        held_by(g.world, t, side),
        safe(g.entities, villages, Faction::Enemy, t),
    ensures
        g.won(villages, n).world.wf(),
        g.won(villages, n).entities == g.entities,
        held_by(g.won(villages, n).world, t, side),
    decreases n,
{
    lemma_won_wf(g, villages, n);
    if n > 0 {
        lemma_won_spares(g, villages, n - 1, t, side);
        let v = villages[n - 1];
        if undefended(g.entities, v, Faction::Enemy) {
            assert(!villages[n - 1].contains(t));
            lemma_handed_elsewhere(
                g.won(villages, n - 1).world,
                v,
                1,
                0,
                v.len() as int,
                t,
                side,
            );
        }
    }
}

proof fn lemma_fallen_spares(g: GameView, villages: Seq<Seq<Coord>>, n: int, t: Coord, side: u8)
    requires
        g.world.wf(),
        0 <= n <= villages.len(),
        held_by(g.world, t, side),
        safe(g.entities, villages, Faction::Player, t),
    ensures
        g.fallen(villages, n).world.wf(),
        held_by(g.fallen(villages, n).world, t, side),
    decreases n,
{
    lemma_fallen(g, villages, n);
    if n > 0 {
        lemma_fallen_spares(g, villages, n - 1, t, side);
        let v = villages[n - 1];
        if undefended(g.entities, v, Faction::Player) {
            assert(!villages[n - 1].contains(t));
            lemma_handed_elsewhere(
                g.fallen(villages, n - 1).world,
                v,
                0,
                1,
                v.len() as int,
                t,
                side,
            );
        }
    }
}

/// The tile's houses on the land are as before, and still listed.
proof fn lemma_stays(g: GameView, t: Coord, side: u8)
    requires
        g.world.wf(),
        held_by(g.world, t, side),
        safe(g.entities, cluster_spec(g.world.enemy_house_tiles), Faction::Enemy, t),
        safe(g.entities, cluster_spec(g.player_house_tiles), Faction::Player, t),
        side == 0 ==> g.player_house_tiles.contains(t),
        side != 0 ==> g.world.enemy_house_tiles.contains(t),
    ensures
        held_by(g.captured().world, t, side),
        side == 0 ==> g.captured().player_house_tiles.contains(t),
        side != 0 ==> g.captured().world.enemy_house_tiles.contains(t),
{
    reveal(GameView::captured);
    let theirs = cluster_spec(g.world.enemy_house_tiles);
    let ours = cluster_spec(g.player_house_tiles);
    lemma_won_spares(g, theirs, theirs.len() as int, t, side);
    let won = g.won(theirs, theirs.len() as int);
    lemma_fallen_spares(won, ours, ours.len() as int, t, side);
    let w = won.fallen(ours, ours.len() as int).world;
    if any_undefended(g.entities, theirs, Faction::Enemy) || any_undefended(
        g.entities,
        ours,
        Faction::Player,
    ) {
        lemma_listed(
            w,
            if side == 0 {
                Layer::House
            } else {
                Layer::EnemyHouse
            },
            t,
        );
    } else {
        law_defended_villages_stay(g);
    }
}

/// A village of the player's that has a defender, or no intruder, stays the player's,
/// house by house, whatever becomes of the others. (Houses that both sides list are
/// left out.)
pub proof fn law_defended_village_is_kept(g: GameView, k: int, t: Coord)
    requires
        g.world.wf(),
        0 <= k < cluster_spec(g.player_house_tiles).len(),
        cluster_spec(g.player_house_tiles)[k].contains(t),
        !undefended(g.entities, cluster_spec(g.player_house_tiles)[k], Faction::Player),
        held_by(g.world, t, 0),
        !g.world.enemy_house_tiles.contains(t),
    ensures
        held_by(g.captured().world, t, 0),
        g.captured().player_house_tiles.contains(t),
{
    lemma_one_village(g.player_house_tiles, k, t);
    lemma_no_village(g.world.enemy_house_tiles, t);
    crate::village::law_villages(g.player_house_tiles);
    assert(crate::village::housed(cluster_spec(g.player_house_tiles), t));
    lemma_stays(g, t, 0);
}

/// An enemy village that has a defender, or no intruder, stays the enemy's, house by
/// house, whatever becomes of the others. (Houses that both sides list are left out.)
pub proof fn law_defended_enemy_village_holds(g: GameView, k: int, t: Coord)
    requires
        g.world.wf(),
        0 <= k < cluster_spec(g.world.enemy_house_tiles).len(),
        cluster_spec(g.world.enemy_house_tiles)[k].contains(t),
        !undefended(g.entities, cluster_spec(g.world.enemy_house_tiles)[k], Faction::Enemy),
        held_by(g.world, t, 1),
        !g.player_house_tiles.contains(t),
    ensures
        held_by(g.captured().world, t, 1),
        g.captured().world.enemy_house_tiles.contains(t),
{
    lemma_one_village(g.world.enemy_house_tiles, k, t);
    lemma_no_village(g.player_house_tiles, t);
    crate::village::law_villages(g.world.enemy_house_tiles);
    assert(crate::village::housed(cluster_spec(g.world.enemy_house_tiles), t));
    lemma_stays(g, t, 1);
}

proof fn lemma_nothing_won(g: GameView, villages: Seq<Seq<Coord>>, n: int)
    requires
        0 <= n <= villages.len(),
        !any_undefended(g.entities, villages, Faction::Enemy),
    ensures
        g.won(villages, n) == g,
    decreases n,
{
    if n > 0 {
        lemma_nothing_won(g, villages, n - 1);
        assert(!undefended(g.entities, villages[n - 1], Faction::Enemy));
    }
}

proof fn lemma_nothing_lost(g: GameView, villages: Seq<Seq<Coord>>, n: int)
    requires
        0 <= n <= villages.len(),
        !any_undefended(g.entities, villages, Faction::Player),
    ensures
        g.fallen(villages, n) == g,
    decreases n,
{
    if n > 0 {
        lemma_nothing_lost(g, villages, n - 1);
        assert(!undefended(g.entities, villages[n - 1], Faction::Player));
    }
}

/// A building on the land is on the list of its kind.
proof fn lemma_listed(w: WorldView, layer: Layer, t: Coord)
    requires
        w.wf(),
        w.loaded(t.0, t.1),
        layer.on_spec(w.at(t.0, t.1)),
    ensures
        tiles_with(w.coords, w.cells, layer).contains(t),
{
    crate::world::lemma_place(t.0, t.1);
    let k = w.coords.index_of(crate::world::chunk_coord(t.0, t.1));
    let j = crate::world::local_index(t.0, t.1);
    lemma_scanned(w.coords, w.cells, layer, k, j);
}

proof fn lemma_scanned(
    coords: Seq<Coord>,
    cells: Seq<Seq<Cell>>,
    layer: Layer,
    k: int,
    j: int,
)
    requires
        coords.len() == cells.len(),
        0 <= k < coords.len(),
        0 <= j < crate::chunk::CHUNK_TILES,
        layer.on_spec(cells[k][j]),
    ensures
        tiles_with(coords, cells, layer).contains(
            crate::chunk::place_spec(coords[k].0, coords[k].1, j),
        ),
    decreases coords.len(),
{
    let t = crate::chunk::place_spec(coords[k].0, coords[k].1, j);
    let n = coords.len() as int;
    let front = tiles_with(coords.drop_last(), cells.drop_last(), layer);
    let last = crate::world::chunk_tiles_with(
        coords.last(),
        cells.last(),
        layer,
        crate::chunk::CHUNK_TILES as int,
    );
    if k < n - 1 {
        lemma_scanned(coords.drop_last(), cells.drop_last(), layer, k, j);
        let i = front.index_of(t);
        assert((front + last)[i] == t);
    } else {
        lemma_chunk_scanned(
            coords.last(),
            cells.last(),
            layer,
            crate::chunk::CHUNK_TILES as int,
            j,
        );
        let i = last.index_of(t);
        assert((front + last)[front.len() + i] == t);
    }
}

proof fn lemma_chunk_scanned(c: Coord, cells: Seq<Cell>, layer: Layer, n: int, j: int)
    requires
        0 <= j < n,
        layer.on_spec(cells[j]),
    ensures
        crate::world::chunk_tiles_with(c, cells, layer, n).contains(
            crate::chunk::place_spec(c.0, c.1, j),
        ),
    decreases n,
{
    let t = crate::chunk::place_spec(c.0, c.1, j);
    let before = crate::world::chunk_tiles_with(c, cells, layer, n - 1);
    let now = crate::world::chunk_tiles_with(c, cells, layer, n);
    if j == n - 1 {
        assert(now.last() == t);
        assert(now[now.len() - 1] == t);
    } else {
        lemma_chunk_scanned(c, cells, layer, n - 1, j);
        let i = before.index_of(t);
        assert(now[i] == t);
    }
}

} // verus!
