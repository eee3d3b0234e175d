//! What falls and what changes hands: huts under attack, and the walls of a taken village.

use vstd::prelude::*;
use crate::capture::handed_over;
use crate::chunk::{Cell, Hut, Wall};
use crate::float::F32;
use crate::game::GameView;
use crate::rules::law_edits_are_local;
use crate::vec2::Coord;
use crate::works::{lemma_changed, lemma_cancelled, only_changed};
use crate::world::WorldView;

verus! {

/// A hut that is hit has that much less left; when nothing is left it is gone, with everyone
/// inside, and they are tallied as the side's losses. Nothing else on the land changes, and
/// nobody outside is touched. (The tallies must not have run full.)
pub proof fn law_huts_crumble(g: GameView, t: Coord, dmg: F32, c: Coord)
    requires
        g.world.wf(),
        g.world.hut(t.0, t.1) is Some,
        g.units_lost + 255 <= u32::MAX,
        g.enemies_defeated + 255 <= u32::MAX,
    ensures
        ({
            let hut = g.world.hut(t.0, t.1)->0;
            let left = hut.hp.sub_spec(dmg);
            let falls = left.le_spec(F32 { bits: 0 });
            let after = g.hut_hit(t, dmg);
            &&& only_changed(
                g.world,
                after.world,
                t.0,
                t.1,
                Cell {
                    hut: if falls {
                        None
                    } else {
                        Some(Hut { owner: hut.owner, hp: left, occupants: hut.occupants })
                    },
                    ..g.world.at(t.0, t.1)
                },
            )
            &&& after.entities == g.entities
            &&& after.units_lost == g.units_lost + if falls && hut.owner == 0 {
                hut.occupants as int
            } else {
                0
            }
            &&& after.enemies_defeated == g.enemies_defeated + if falls && hut.owner != 0 {
                hut.occupants as int
            } else {
                0
            }
            &&& after.hut_tiles.contains(c) == (g.hut_tiles.contains(c) && !(falls && c == t))
            &&& after.wood == g.wood && after.stone == g.stone
        }),
{
    reveal(GameView::hut_hit);
    let hut = g.world.hut(t.0, t.1)->0;
    let left = hut.hp.sub_spec(dmg);
    let cell = Cell {
        hut: if left.le_spec(F32 { bits: 0 }) {
            None
        } else {
            Some(Hut { hp: left, ..hut })
        },
        ..g.world.at(t.0, t.1)
    };
    lemma_changed(g.world, t.0, t.1, cell);
    lemma_cancelled(g.hut_tiles, t);
}

// --- walls -------------------------------------------------------------------------------

/// The tile is within four tiles of one of the first `n` houses.
pub open spec fn under_the_houses(village: Seq<Coord>, n: int, u: i32, v: i32) -> bool {
    exists|k: int|
        0 <= k < n && -4 <= (#[trigger] village[k]).0 - u <= 4 && -4 <= village[k].1 - v <= 4
}

proof fn lemma_converted_wall(w: WorldView, x: i32, y: i32, to: u8, u: i32, v: i32)
    requires
        w.wf(),
        w.loaded(u, v),
    ensures
        w.convert_house(x, y, to).wf(),
        w.convert_house(x, y, to).loaded(u, v),
        w.convert_house(x, y, to).wall(u, v) == w.wall(u, v),
{
    let t = w.with_tile(x, y);
    crate::world::lemma_ensured(w, crate::world::chunk_coord(x, y));
    let c = Cell { house: to == 0, enemy_house: to != 0, ..t.at(x, y) };
    law_edits_are_local(t, x, y, c, x, y);
    law_edits_are_local(t, x, y, c, u, v);
    let k = w.coords.index_of(crate::world::chunk_coord(u, v));
    assert(t.coords[k] == w.coords[k]);
    let j = t.coords.index_of(crate::world::chunk_coord(u, v));
    assert(t.coords[j] == w.coords[k]);
    assert(j == k);
    assert(t.cell(u, v) == w.cell(u, v));
}

proof fn lemma_reowned_wall(w: WorldView, x: i32, y: i32, from: u8, to: u8, u: i32, v: i32)
    requires
        w.wf(),
        w.loaded(u, v),
    ensures
        ({
            let after = w.reown_walls_near(x, y, 4, from, to);
            &&& after.wf()
            &&& after.loaded(u, v)
            &&& after.wall(u, v) == match w.wall(u, v) {
                Some(wall) => Some(
                    if wall.owner == from && -4 <= x - u <= 4 && -4 <= y - v <= 4 {
                        Wall { owner: to, hp: wall.hp }
                    } else {
                        wall
                    },
                ),
                None => None,
            }
        }),
{
    let after = w.reown_walls_near(x, y, 4, from, to);
    crate::world::lemma_place(u, v);
    assert forall|i: int| 0 <= i < after.cells.len() implies (#[trigger] after.cells[i]).len()
        == crate::chunk::CHUNK_TILES by {
        assert(w.cells[i].len() == crate::chunk::CHUNK_TILES);
    }
    let k = w.coords.index_of(crate::world::chunk_coord(u, v));
    let j = crate::world::local_index(u, v);
    assert(w.cells[k].len() == crate::chunk::CHUNK_TILES);
    assert(after.cells[k][j] == w.reowned_cell(k, j, (x, y), 4, from, to));
}

/// With a village go the walls of its old owner within four tiles of its houses. They are as
/// strong as they were, and every other wall keeps its owner.
pub proof fn law_walls_go_with_the_village(
    w: WorldView,
    village: Seq<Coord>,
    from: u8,
    to: u8,
    n: int,
    u: i32,
    v: i32,
)
    requires
        w.wf(),
        0 <= n <= village.len(),
        from != to,
        w.loaded(u, v),
    ensures
        handed_over(w, village, from, to, n).wf(),
        handed_over(w, village, from, to, n).loaded(u, v),
        handed_over(w, village, from, to, n).wall(u, v) == match w.wall(u, v) {
            Some(wall) => Some(
                if wall.owner == from && under_the_houses(village, n, u, v) {
                    Wall { owner: to, hp: wall.hp }
                } else {
                    wall
                },
            ),
            None => None,
        },
    decreases n,
{
    if n > 0 {
        law_walls_go_with_the_village(w, village, from, to, n - 1, u, v);
        let t = village[n - 1];
        let before = handed_over(w, village, from, to, n - 1);
        lemma_converted_wall(before, t.0, t.1, to, u, v);
        lemma_reowned_wall(before.convert_house(t.0, t.1, to), t.0, t.1, from, to, u, v);
        if under_the_houses(village, n - 1, u, v) {
            let k = choose|k: int|
                0 <= k < n - 1 && -4 <= (#[trigger] village[k]).0 - u <= 4 && -4 <= village[k].1 - v
                    <= 4;
            assert(under_the_houses(village, n, u, v)) by {
                assert(-4 <= village[k].0 - u <= 4);
            }
        } else if under_the_houses(village, n, u, v) {
            let k = choose|k: int|
                0 <= k < n && -4 <= (#[trigger] village[k]).0 - u <= 4 && -4 <= village[k].1 - v
                    <= 4;
            assert(k == n - 1);
        }
    }
}

} // verus!
