//! The lie of the land: distances, where units can walk, natural bridges, and edits.

use vstd::prelude::*;
use crate::chunk::{Cell, Hut, Node, Resource, Tile, Wall};
use crate::float::F32;
use crate::grid::{adjacent_spec, manhattan_spec, near_any_spec, neighbor_spec, within_spec};
use crate::terrain::{bridged, chunk_spec, is_channel, line_index, spanned, water_at};
use crate::vec2::Coord;
use crate::works::{lemma_changed, only_changed};
use crate::world::WorldView;

verus! {

// --- distances ---------------------------------------------------------------------------

/// How far `t` lies east and south of `from`.
pub open spec fn lies(from: Coord, t: Coord, east: int, south: int) -> bool {
    t.0 == from.0 + east && t.1 == from.1 + south
}

/// Steps along the grid: one for each column and each row in between, either way; there is no
/// detour that is shorter.
pub proof fn law_steps_between_tiles(a: Coord, b: Coord, c: Coord, east: int, south: int)
    requires
        lies(a, b, east, south),
    ensures
        east >= 0 && south >= 0 ==> manhattan_spec(a, b) == east + south,
        east >= 0 && south <= 0 ==> manhattan_spec(a, b) == east - south,
        east <= 0 && south >= 0 ==> manhattan_spec(a, b) == south - east,
        east <= 0 && south <= 0 ==> manhattan_spec(a, b) == -east - south,
        manhattan_spec(b, a) == manhattan_spec(a, b),
        manhattan_spec(a, c) <= manhattan_spec(a, b) + manhattan_spec(b, c),
        adjacent_spec(a, b) == (lies(a, b, 1, 0) || lies(a, b, -1, 0) || lies(a, b, 0, 1) || lies(
            a,
            b,
            0,
            -1,
        )),
{
}

/// Within a distance is a square round the tile, and near a list of tiles is within the
/// distance of one of them.
pub proof fn law_squares_round_tiles(tiles: Seq<Coord>, t: Coord, r: int)
    ensures
        forall|i: int|
            0 <= i < tiles.len() && t.0 - r <= (#[trigger] tiles[i]).0 <= t.0 + r && t.1 - r
                <= tiles[i].1 <= t.1 + r ==> near_any_spec(tiles, t, r),
        near_any_spec(tiles, t, r) ==> exists|i: int|
            0 <= i < tiles.len() && t.0 - r <= (#[trigger] tiles[i]).0 <= t.0 + r && t.1 - r
                <= tiles[i].1 <= t.1 + r,
{
    assert forall|i: int|
        0 <= i < tiles.len() && t.0 - r <= (#[trigger] tiles[i]).0 <= t.0 + r && t.1 - r
            <= tiles[i].1 <= t.1 + r implies near_any_spec(tiles, t, r) by {
        assert(within_spec(tiles[i], t, r));
    }
    if near_any_spec(tiles, t, r) {
        let i = choose|i: int| 0 <= i < tiles.len() && within_spec(#[trigger] tiles[i], t, r);
        assert(t.0 - r <= tiles[i].0 <= t.0 + r);
    }
}

/// The first four neighbours of a tile are the four tiles next to it, each of them once.
pub proof fn law_four_neighbours(t: Coord, n: Coord, i: int, j: int)
    requires
        0 <= i < 4,
        0 <= j < 4,
    ensures
        neighbor_spec(t, i) == Some(n) ==> adjacent_spec(t, n),
        neighbor_spec(t, i) == Some(n) && neighbor_spec(t, j) == Some(n) ==> i == j,
        adjacent_spec(t, n) ==> neighbor_spec(t, 0) == Some(n) || neighbor_spec(t, 1) == Some(n)
            || neighbor_spec(t, 2) == Some(n) || neighbor_spec(t, 3) == Some(n),
{
}

// --- walking -----------------------------------------------------------------------------

/// Units walk on grass with nothing on it, and on bridges; of walls only their own let them
/// through. Knights on the attack take trees and rocks for no more than delays, and nobody
/// walks where no land is known.
pub proof fn law_where_units_walk(w: WorldView, owner: u8, x: i32, y: i32)
    ensures
        ({
            let c = w.at(x, y);
            let barred = c.wall matches Some(wall) && wall.owner != owner;
            let built = c.house || c.enemy_house || c.cave || c.hut is Some;
            &&& w.cell(x, y) is None ==> !w.walkable_for(owner, x, y) && !w.walkable_for_siege(
                owner,
                x,
                y,
            )
            &&& w.cell(x, y) is Some && barred ==> !w.walkable_for(owner, x, y)
                && !w.walkable_for_siege(owner, x, y)
            &&& w.cell(x, y) is Some && !barred && c.bridge ==> w.walkable_for(owner, x, y)
                && w.walkable_for_siege(owner, x, y)
            &&& w.cell(x, y) is Some && !barred && !c.bridge ==> {
                &&& w.walkable_for_siege(owner, x, y) == (c.tile == Tile::Grass && !built)
                &&& w.walkable_for(owner, x, y) == (c.tile == Tile::Grass && !built && c.node
                    is None)
            }
        }),
{
}

// --- natural bridges ---------------------------------------------------------------------

/// The ground at a place of a chunk.
pub open spec fn ground(cells: Seq<Cell>, x: int, y: int) -> Tile {
    cells[y * 32 + x].tile
}

/// Water that is one tile wide from west to east, and goes on to the north and the south.
pub open spec fn narrow(cells: Seq<Cell>, x: int, y: int) -> bool {
    &&& 0 < x < 31 && 0 < y < 31
    &&& ground(cells, x, y) == Tile::Water
    &&& ground(cells, x - 1, y) == Tile::Grass && ground(cells, x + 1, y) == Tile::Grass
    &&& ground(cells, x, y - 1) == Tile::Water && ground(cells, x, y + 1) == Tile::Water
}

/// Water that is one tile wide from north to south, and goes on to the west and the east.
pub open spec fn shallow(cells: Seq<Cell>, x: int, y: int) -> bool {
    &&& 0 < x < 31 && 0 < y < 31
    &&& ground(cells, x, y) == Tile::Water
    &&& ground(cells, x, y - 1) == Tile::Grass && ground(cells, x, y + 1) == Tile::Grass
    &&& ground(cells, x - 1, y) == Tile::Water && ground(cells, x + 1, y) == Tile::Water
}

proof fn lemma_spanned(cells: Seq<Cell>, x: int, y: int)
    requires
        cells.len() == 1024,
        0 <= x < 32,
        0 <= y < 32,
    ensures
        spanned(cells, true, x, y) == narrow(cells, x, y),
        spanned(cells, false, y, x) == shallow(cells, x, y),
{
    if narrow(cells, x, y) {
        assert(line_index(true, x, y) == y * 32 + x);
        assert(is_channel(cells, true, y, x, x + 1));
    }
    if spanned(cells, true, x, y) {
        let (a, b) = choose|a: int, b: int|
            a <= x < b && #[trigger] is_channel(cells, true, y, a, b);
        assert(line_index(true, x, y) == y * 32 + x);
        assert(water_at(cells, true, x, y));
    }
    if shallow(cells, x, y) {
        assert(line_index(false, y, x) == y * 32 + x);
        assert(is_channel(cells, false, x, y, y + 1));
    }
    if spanned(cells, false, y, x) {
        let (a, b) = choose|a: int, b: int|
            a <= y < b && #[trigger] is_channel(cells, false, x, a, b);
        assert(line_index(false, y, x) == y * 32 + x);
        assert(water_at(cells, false, y, x));
    }
}

/// Where water is one tile wide between two pieces of land and goes on to both sides, there is
/// a bridge, and nowhere else on untouched land; the ground itself stays as it is.
pub proof fn law_narrow_water_is_bridged(cells: Seq<Cell>, x: int, y: int)
    requires
        cells.len() == 1024,
        0 <= x < 32,
        0 <= y < 32,
    ensures
        bridged(cells).len() == 1024,
        bridged(cells)[y * 32 + x].bridge == (cells[y * 32 + x].bridge || narrow(cells, x, y)
            || shallow(cells, x, y)),
        bridged(cells)[y * 32 + x] == (Cell {
            bridge: bridged(cells)[y * 32 + x].bridge,
            ..cells[y * 32 + x]
        }),
{
    lemma_spanned(cells, x, y);
    let i = y * 32 + x;
    assert(i % 32 == x && i / 32 == y);
}

/// The same of the land as it comes.
pub proof fn law_land_comes_with_bridges(seed: i32, cx: i32, cy: i32, x: int, y: int)
    requires
        0 <= x < 32,
        0 <= y < 32,
    ensures
        ({
            let land = chunk_spec(seed, cx, cy);
            land[y * 32 + x].bridge == (narrow(land, x, y) || shallow(land, x, y))
        }),
{
    let bare = crate::terrain::ground_cells(seed, cx, cy);
    let land = chunk_spec(seed, cx, cy);
    law_narrow_water_is_bridged(bare, x, y);
    assert forall|u: int, v: int| 0 <= u < 32 && 0 <= v < 32 implies #[trigger] ground(land, u, v)
        == ground(bare, u, v) by {
        law_narrow_water_is_bridged(bare, u, v);
    }
}

// --- edits -------------------------------------------------------------------------------

/// Every edit changes one thing on one tile.
pub proof fn law_edits_change_one_thing(
    w: WorldView,
    x: i32,
    y: i32,
    v: bool,
    owner: u8,
    hp: F32,
    kind: Resource,
    amount: u32,
)
    requires
        w.wf(),
        w.loaded(x, y),
    ensures
        ({
            let c = w.at(x, y);
            &&& only_changed(w, w.set_house(x, y, v), x, y, Cell { house: v, ..c })
            &&& only_changed(w, w.set_bridge(x, y, v), x, y, Cell { bridge: v, ..c })
            &&& only_changed(w, w.set_cave(x, y, v), x, y, Cell { cave: v, ..c })
            &&& only_changed(
                w,
                w.set_wall(x, y, owner, hp),
                x,
                y,
                Cell { wall: Some(Wall { owner, hp }), ..c },
            )
            &&& only_changed(
                w,
                w.set_hut(x, y, owner, hp),
                x,
                y,
                Cell { node: None, hut: Some(Hut { owner, hp, occupants: 0 }), ..c },
            )
            &&& only_changed(
                w,
                w.set_node(x, y, kind, amount),
                x,
                y,
                Cell { node: Some(Node { kind, amount }), ..c },
            )
            &&& only_changed(w, w.clear_node(x, y), x, y, Cell { node: None, ..c })
            &&& only_changed(
                w,
                w.raise_land(x, y),
                x,
                y,
                Cell { tile: Tile::Grass, bridge: false, ..c },
            )
            &&& only_changed(
                w,
                w.convert_house(x, y, owner),
                x,
                y,
                Cell { house: owner == 0, enemy_house: owner != 0, ..c },
            )
        }),
{
    let c = w.at(x, y);
    assert(w.with_tile(x, y) == w);
    lemma_changed(w, x, y, Cell { house: v, ..c });
    lemma_changed(w, x, y, Cell { bridge: v, ..c });
    lemma_changed(w, x, y, Cell { cave: v, ..c });
    lemma_changed(w, x, y, Cell { wall: Some(Wall { owner, hp }), ..c });
    lemma_changed(w, x, y, Cell { node: None, hut: Some(Hut { owner, hp, occupants: 0 }), ..c });
    lemma_changed(w, x, y, Cell { node: Some(Node { kind, amount }), ..c });
    lemma_changed(w, x, y, Cell { node: None, ..c });
    lemma_changed(w, x, y, Cell { tile: Tile::Grass, bridge: false, ..c });
    lemma_changed(w, x, y, Cell { house: owner == 0, enemy_house: owner != 0, ..c });
}

/// Taking from a node takes one unit of it, and the last one takes the node along.
pub proof fn law_nodes_run_out(w: WorldView, x: i32, y: i32)
    requires
        w.wf(),
        w.node(x, y) is Some,
    ensures
        ({
            let n = w.node(x, y)->0;
            only_changed(
                w,
                w.deplete_node(x, y),
                x,
                y,
                Cell {
                    node: if n.amount <= 1 {
                        None
                    } else {
                        Some(Node { kind: n.kind, amount: (n.amount - 1) as u32 })
                    },
                    ..w.at(x, y)
                },
            )
        }),
{
    let n = w.node(x, y)->0;
    lemma_changed(
        w,
        x,
        y,
        Cell {
            node: if n.amount <= 1 {
                None
            } else {
                Some(Node { amount: (n.amount - 1) as u32, ..n })
            },
            ..w.at(x, y)
        },
    );
}

} // verus!
