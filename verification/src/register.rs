//! The lists of buildings: each holds exactly the tiles where one stands.

use vstd::prelude::*;
use crate::battle::{clash_spec, walls_hit};
use crate::behavior::{SceneView, StepEvent};
use crate::capture::{any_undefended, handed_over};
use crate::chunk::{chunk_of_spec, place_spec, Cell, CHUNK_TILES};
use crate::float::F32;
use crate::game::{without, CamState, GameView};
use crate::knight::{ai_spec, is_tree, soldier_spec};
use crate::roundtrip::{
    all_plain, brought_back, countable, law_save_keeps_land, law_save_round_trip, saved_cell,
    saved_cells, saved_chunk,
};
use crate::rules::law_edits_are_local;
use crate::save::{cam_at, game_at, save_bytes, session_fits};
use crate::terrain::{chunk_spec, ground_cells};
use crate::turn::{rosters, TurnView, MAX_STEP};
use crate::unit::{owner_of_spec, EntityView, Faction, Job};
use crate::vec2::Coord;
use crate::village::cluster_spec;
use crate::world::{
    chunk_coord, chunk_tiles_with, lemma_place, local_index, tiles_with, Layer, WorldView,
};

verus! {

/// Such a building stands on the tile.
pub open spec fn on(w: WorldView, layer: Layer, t: Coord) -> bool {
    w.loaded(t.0, t.1) && layer.on_spec(w.at(t.0, t.1))
}

/// The chunk lies where tiles have coordinates.
pub open spec fn chunk_on_map(c: Coord) -> bool {
    -0x0400_0000 <= c.0 < 0x0400_0000 && -0x0400_0000 <= c.1 < 0x0400_0000
}

/// Every chunk lies where tiles have coordinates, and nothing grows where a hut stands.
pub open spec fn tidy(w: WorldView) -> bool {
    &&& w.wf()
    &&& forall|i: int| 0 <= i < w.coords.len() ==> chunk_on_map(#[trigger] w.coords[i])
    &&& forall|t: Coord| #[trigger] on(w, Layer::Hut, t) ==> w.at(t.0, t.1).node is None
}

/// The list holds exactly the tiles where such a building stands, each once.
pub open spec fn exact(w: WorldView, tiles: Seq<Coord>, layer: Layer) -> bool {
    &&& tiles.no_duplicates()
    &&& forall|t: Coord|
        #![trigger tiles.contains(t)]
        #![trigger on(w, layer, t)]
        tiles.contains(t) == on(w, layer, t)
}

/// The four lists of buildings are exact, and the land is tidy.
pub open spec fn registered(g: GameView) -> bool {
    &&& tidy(g.world)
    &&& exact(g.world, g.world.enemy_house_tiles, Layer::EnemyHouse)
    &&& exact(g.world, g.player_house_tiles, Layer::House)
    &&& exact(g.world, g.cave_tiles, Layer::Cave)
    &&& exact(g.world, g.hut_tiles, Layer::Hut)
}

/// The same buildings stand in both.
pub open spec fn same_buildings(a: WorldView, b: WorldView) -> bool {
    forall|layer: Layer, t: Coord|
        #![trigger on(b, layer, t)]
        #![trigger on(a, layer, t)]
        on(b, layer, t) == on(a, layer, t)
}

// --- the land --------------------------------------------------------------------------

pub proof fn lemma_chunk_on_map(x: i32, y: i32)
    ensures
        chunk_on_map(chunk_coord(x, y)),
{
}

proof fn lemma_bare(seed: i32, cx: i32, cy: i32, j: int, layer: Layer)
    requires
        0 <= j < CHUNK_TILES,
    ensures
        !layer.on_spec(chunk_spec(seed, cx, cy)[j]),
{
    let ground = ground_cells(seed, cx, cy);
    let c = chunk_spec(seed, cx, cy)[j];
    assert(c.house == ground[j].house);
    assert(c.enemy_house == ground[j].enemy_house);
    assert(c.cave == ground[j].cave);
    assert(c.hut == ground[j].hut);
}

/// A chunk that comes into view brings no buildings, and leaves those that stand.
pub proof fn lemma_load(w: WorldView, c: Coord)
    requires
        tidy(w),
        chunk_on_map(c),
    ensures
        tidy(w.ensured(c)),
        same_buildings(w, w.ensured(c)),
        w.ensured(c).enemy_house_tiles == w.enemy_house_tiles,
        w.ensured(c).coords.contains(c),
        forall|t: Coord|
            w.loaded(t.0, t.1) ==> #[trigger] w.ensured(c).cell(t.0, t.1) == w.cell(t.0, t.1),
{
    let more = w.ensured(c);
    crate::world::lemma_ensured(w, c);
    assert forall|t: Coord| w.loaded(t.0, t.1) implies #[trigger] more.cell(t.0, t.1) == w.cell(
        t.0,
        t.1,
    ) by {
        crate::camps::lemma_ensured_keeps(w, c, t.0, t.1);
    }
    assert forall|layer: Layer, t: Coord| on(more, layer, t) == on(w, layer, t) by {
        let at = chunk_coord(t.0, t.1);
        lemma_place(t.0, t.1);
        if w.loaded(t.0, t.1) {
            let i = w.coords.index_of(at);
            assert(more.coords[i] == at);
            assert(more.cell(t.0, t.1) == w.cell(t.0, t.1));
        } else if more.loaded(t.0, t.1) {
            let i = more.coords.index_of(at);
            assert(more.coords[i] == at);
            if i < w.coords.len() {
                assert(w.coords[i] == at);
            }
            assert(i == w.coords.len());
            lemma_bare(w.seed, c.0, c.1, local_index(t.0, t.1), layer);
        }
    }
    assert forall|t: Coord| #[trigger] on(more, Layer::Hut, t) implies more.at(
        t.0,
        t.1,
    ).node is None by {
        assert(on(w, Layer::Hut, t));
        assert(more.cell(t.0, t.1) == w.cell(t.0, t.1));
    }
    assert forall|i: int| 0 <= i < more.coords.len() implies chunk_on_map(
        #[trigger] more.coords[i],
    ) by {
        if i < w.coords.len() {
            assert(chunk_on_map(w.coords[i]));
        }
    }
}

proof fn lemma_row(w: WorldView, cy: int, cx0: int, cx1: int)
    requires
        tidy(w),
        -0x0400_0000 <= cy < 0x0400_0000,
        -0x0400_0000 <= cx0,
        cx1 < 0x0400_0000,
    ensures
        tidy(w.ensured_row(cy, cx0, cx1)),
        same_buildings(w, w.ensured_row(cy, cx0, cx1)),
        w.ensured_row(cy, cx0, cx1).enemy_house_tiles == w.enemy_house_tiles,
    decreases cx1 - cx0 + 1,
{
    if cx0 <= cx1 {
        let next = w.ensured((cx0 as i32, cy as i32));
        lemma_load(w, (cx0 as i32, cy as i32));
        lemma_row(next, cy, cx0 + 1, cx1);
    }
}

proof fn lemma_rows(w: WorldView, cy0: int, cy1: int, cx0: int, cx1: int)
    requires
        tidy(w),
        -0x0400_0000 <= cy0,
        cy1 < 0x0400_0000,
        -0x0400_0000 <= cx0,
        cx1 < 0x0400_0000,
    ensures
        tidy(w.ensured_rows(cy0, cy1, cx0, cx1)),
        same_buildings(w, w.ensured_rows(cy0, cy1, cx0, cx1)),
        w.ensured_rows(cy0, cy1, cx0, cx1).enemy_house_tiles == w.enemy_house_tiles,
    decreases cy1 - cy0 + 1,
{
    if cy0 <= cy1 {
        let next = w.ensured_row(cy0, cx0, cx1);
        lemma_row(w, cy0, cx0, cx1);
        lemma_rows(next, cy0 + 1, cy1, cx0, cx1);
    }
}

pub proof fn lemma_region(w: WorldView, a: i32, b: i32, c: i32, d: i32)
    requires
        tidy(w),
    ensures
        tidy(w.ensured_region(a, b, c, d)),
        same_buildings(w, w.ensured_region(a, b, c, d)),
        w.ensured_region(a, b, c, d).enemy_house_tiles == w.enemy_house_tiles,
{
    lemma_rows(
        w,
        chunk_of_spec(b as int),
        chunk_of_spec(d as int),
        chunk_of_spec(a as int),
        chunk_of_spec(c as int),
    );
}

/// An edit changes what stands on its own tile only.
pub proof fn lemma_edit(w: WorldView, x: i32, y: i32, c: Cell)
    requires
        tidy(w),
        w.loaded(x, y),
        c.hut is Some ==> c.node is None,
    ensures
        tidy(w.with_cell(x, y, c)),
        forall|layer: Layer, t: Coord| #[trigger]
            on(w.with_cell(x, y, c), layer, t) == if t == (x, y) {
                layer.on_spec(c)
            } else {
                on(w, layer, t)
            },
{
    let after = w.with_cell(x, y, c);
    law_edits_are_local(w, x, y, c, x, y);
    assert forall|layer: Layer, t: Coord| #[trigger] on(after, layer, t) == if t == (x, y) {
        layer.on_spec(c)
    } else {
        on(w, layer, t)
    } by {
        law_edits_are_local(w, x, y, c, t.0, t.1);
        assert(after.cell(t.0, t.1) is Some == after.loaded(t.0, t.1));
    }
    assert forall|t: Coord| #[trigger] on(after, Layer::Hut, t) implies after.at(
        t.0,
        t.1,
    ).node is None by {
        law_edits_are_local(w, x, y, c, t.0, t.1);
        if t != (x, y) {
            assert(on(w, Layer::Hut, t));
        }
    }
}

/// The cell holds the same buildings.
pub open spec fn alike(a: Cell, b: Cell) -> bool {
    a.house == b.house && a.enemy_house == b.enemy_house && a.cave == b.cave && (a.hut is Some) == (
    b.hut is Some)
}

pub proof fn lemma_edit_alike(w: WorldView, x: i32, y: i32, c: Cell)
    requires
        tidy(w),
        w.loaded(x, y),
        c.hut is Some ==> c.node is None,
        alike(c, w.at(x, y)),
    ensures
        tidy(w.with_cell(x, y, c)),
        same_buildings(w, w.with_cell(x, y, c)),
{
    lemma_edit(w, x, y, c);
    let after = w.with_cell(x, y, c);
    assert forall|layer: Layer, t: Coord| on(after, layer, t) == on(w, layer, t) by {
        if t == (x, y) {
            assert(layer.on_spec(c) == layer.on_spec(w.at(x, y)));
        }
    }
}

/// The tile's chunk is loaded; what stands stays.
pub proof fn lemma_tile(w: WorldView, x: i32, y: i32)
    requires
        tidy(w),
    ensures
        tidy(w.with_tile(x, y)),
        same_buildings(w, w.with_tile(x, y)),
        w.with_tile(x, y).loaded(x, y),
        w.with_tile(x, y).enemy_house_tiles == w.enemy_house_tiles,
        w.loaded(x, y) ==> w.with_tile(x, y).cell(x, y) == w.cell(x, y),
        w.with_tile(x, y).at(x, y).hut is Some ==> w.with_tile(x, y).at(x, y).node is None,
{
    lemma_chunk_on_map(x, y);
    lemma_load(w, chunk_coord(x, y));
    let more = w.with_tile(x, y);
    if w.loaded(x, y) {
        let t: Coord = (x, y);
        assert(more.cell(t.0, t.1) == w.cell(t.0, t.1));
    }
    if more.at(x, y).hut is Some {
        assert(on(more, Layer::Hut, (x, y)));
    }
}

// --- the lists -------------------------------------------------------------------------

proof fn lemma_kept(a: WorldView, b: WorldView, tiles: Seq<Coord>, layer: Layer)
    requires
        exact(a, tiles, layer),
        same_buildings(a, b),
    ensures
        exact(b, tiles, layer),
{
    assert forall|t: Coord| tiles.contains(t) == on(b, layer, t) by {
        assert(on(a, layer, t) == tiles.contains(t));
    }
}

/// What leaves the buildings and the lists alone leaves the lists exact.
pub proof fn lemma_left_alone(g: GameView, h: GameView)
    requires
        registered(g),
        tidy(h.world),
        same_buildings(g.world, h.world),
        h.world.enemy_house_tiles == g.world.enemy_house_tiles,
        h.player_house_tiles == g.player_house_tiles,
        h.cave_tiles == g.cave_tiles,
        h.hut_tiles == g.hut_tiles,
    ensures
        registered(h),
{
    lemma_kept(g.world, h.world, g.world.enemy_house_tiles, Layer::EnemyHouse);
    lemma_kept(g.world, h.world, g.player_house_tiles, Layer::House);
    lemma_kept(g.world, h.world, g.cave_tiles, Layer::Cave);
    lemma_kept(g.world, h.world, g.hut_tiles, Layer::Hut);
}

/// One more building, and one more tile on the list.
pub proof fn lemma_added(a: WorldView, b: WorldView, tiles: Seq<Coord>, layer: Layer, t: Coord)
    requires
        exact(a, tiles, layer),
        !on(a, layer, t),
        on(b, layer, t),
        forall|u: Coord| u != t ==> #[trigger] on(b, layer, u) == on(a, layer, u),
    ensures
        exact(b, tiles.push(t), layer),
{
    let now = tiles.push(t);
    assert(!tiles.contains(t));
    assert forall|u: Coord| now.contains(u) == on(b, layer, u) by {
        assert(tiles.contains(u) == on(a, layer, u));
        if u == t {
            assert(now[tiles.len() as int] == t);
        } else if now.contains(u) {
            let i = now.index_of(u);
            assert(tiles[i] == u);
        } else if tiles.contains(u) {
            let i = tiles.index_of(u);
            assert(now[i] == u);
        }
    }
    assert forall|i: int, j: int| 0 <= i < now.len() && 0 <= j < now.len() && i != j implies now[i]
        != now[j] by {
        if i < tiles.len() {
            assert(tiles.contains(tiles[i]));
        }
        if j < tiles.len() {
            assert(tiles.contains(tiles[j]));
        }
    }
}

pub proof fn lemma_without(tiles: Seq<Coord>, t: Coord)
    requires
        tiles.no_duplicates(),
    ensures
        without(tiles, t).no_duplicates(),
        forall|u: Coord| #[trigger]
            without(tiles, t).contains(u) == (tiles.contains(u) && u != t),
    decreases tiles.len(),
{
    let now = without(tiles, t);
    if tiles.len() > 0 {
        let front = tiles.drop_last();
        let last = tiles.last();
        assert forall|i: int, j: int|
            0 <= i < front.len() && 0 <= j < front.len() && i != j implies front[i] != front[j] by {
            assert(tiles[i] != tiles[j]);
        }
        lemma_without(front, t);
        let rest = without(front, t);
        assert(!front.contains(last)) by {
            if front.contains(last) {
                let i = front.index_of(last);
                assert(tiles[i] == tiles[tiles.len() - 1]);
            }
        }
        assert forall|u: Coord| tiles.contains(u) == (front.contains(u) || u == last) by {
            if tiles.contains(u) {
                let i = tiles.index_of(u);
                if i < front.len() {
                    assert(front[i] == u);
                }
            }
            if front.contains(u) {
                assert(tiles[front.index_of(u)] == u);
            }
            assert(tiles[tiles.len() - 1] == last);
        }
        assert forall|u: Coord| #[trigger] now.contains(u) == (tiles.contains(u) && u != t) by {
            assert(rest.contains(u) == (front.contains(u) && u != t));
            if last != t {
                if now.contains(u) {
                    let i = now.index_of(u);
                    if i < rest.len() {
                        assert(rest[i] == u);
                    }
                }
                if rest.contains(u) {
                    assert(now[rest.index_of(u)] == u);
                }
                assert(now[rest.len() as int] == last);
            }
        }
        if last != t {
            assert(!rest.contains(last));
            assert forall|i: int, j: int|
                0 <= i < now.len() && 0 <= j < now.len() && i != j implies now[i] != now[j] by {
                if i < rest.len() {
                    assert(rest.contains(rest[i]));
                }
                if j < rest.len() {
                    assert(rest.contains(rest[j]));
                }
            }
        }
    }
}

// --- looking over the land -------------------------------------------------------------

proof fn lemma_place_on_map(c: Coord, j: int)
    requires
        chunk_on_map(c),
        0 <= j < CHUNK_TILES,
    ensures
        ({
            let t = place_spec(c.0, c.1, j);
            chunk_coord(t.0, t.1) == c && local_index(t.0, t.1) == j
        }),
{
    let t = place_spec(c.0, c.1, j);
    assert(t.0 == c.0 * 32 + j % 32);
    assert(t.1 == c.1 * 32 + j / 32);
}

proof fn lemma_chunk_scan(c: Coord, cells: Seq<Cell>, layer: Layer, n: int)
    requires
        chunk_on_map(c),
        0 <= n <= CHUNK_TILES,
    ensures
        ({
            let s = chunk_tiles_with(c, cells, layer, n);
            &&& s.no_duplicates()
            &&& forall|t: Coord| #[trigger]
                s.contains(t) == (chunk_coord(t.0, t.1) == c && local_index(t.0, t.1) < n
                    && layer.on_spec(cells[local_index(t.0, t.1)]))
        }),
    decreases n,
{
    let s = chunk_tiles_with(c, cells, layer, n);
    if n > 0 {
        lemma_chunk_scan(c, cells, layer, n - 1);
        let before = chunk_tiles_with(c, cells, layer, n - 1);
        let p = place_spec(c.0, c.1, n - 1);
        lemma_place_on_map(c, n - 1);
        let hit = layer.on_spec(cells[n - 1]);
        assert(!before.contains(p));
        assert forall|t: Coord| #[trigger] s.contains(t) == (chunk_coord(t.0, t.1) == c
            && local_index(t.0, t.1) < n && layer.on_spec(cells[local_index(t.0, t.1)])) by {
            assert(before.contains(t) == (chunk_coord(t.0, t.1) == c && local_index(t.0, t.1) < n
                - 1 && layer.on_spec(cells[local_index(t.0, t.1)])));
            lemma_place(t.0, t.1);
            if hit {
                if s.contains(t) {
                    let i = s.index_of(t);
                    if i < before.len() {
                        assert(before[i] == t);
                    }
                }
                if before.contains(t) {
                    assert(s[before.index_of(t)] == t);
                }
                assert(s[before.len() as int] == p);
            }
        }
        if hit {
            assert forall|i: int, j: int|
                0 <= i < s.len() && 0 <= j < s.len() && i != j implies s[i] != s[j] by {
                if i < before.len() {
                    assert(before.contains(before[i]));
                }
                if j < before.len() {
                    assert(before.contains(before[j]));
                }
            }
        }
    } else {
        assert forall|t: Coord| !(#[trigger] s.contains(t)) by {}
        assert forall|t: Coord| #[trigger] s.contains(t) == (chunk_coord(t.0, t.1) == c
            && local_index(t.0, t.1) < n && layer.on_spec(cells[local_index(t.0, t.1)])) by {
            lemma_place(t.0, t.1);
        }
    }
}

/// Chunk `k` of the first ones holds the building on that tile.
spec fn found(coords: Seq<Coord>, cells: Seq<Seq<Cell>>, layer: Layer, t: Coord) -> bool {
    exists|k: int|
        0 <= k < coords.len() && #[trigger] coords[k] == chunk_coord(t.0, t.1) && layer.on_spec(
            cells[k][local_index(t.0, t.1)],
        )
}

proof fn lemma_scan(coords: Seq<Coord>, cells: Seq<Seq<Cell>>, layer: Layer)
    requires
        coords.no_duplicates(),
        coords.len() == cells.len(),
        forall|i: int| 0 <= i < coords.len() ==> chunk_on_map(#[trigger] coords[i]),
    ensures
        tiles_with(coords, cells, layer).no_duplicates(),
        forall|t: Coord| #[trigger]
            tiles_with(coords, cells, layer).contains(t) == found(coords, cells, layer, t),
    decreases coords.len(),
{
    let all = tiles_with(coords, cells, layer);
    if coords.len() > 0 {
        let n = coords.len() as int;
        let front = coords.drop_last();
        let fcells = cells.drop_last();
        assert forall|i: int| 0 <= i < front.len() implies chunk_on_map(#[trigger] front[i]) by {
            assert(chunk_on_map(coords[i]));
        }
        lemma_scan(front, fcells, layer);
        let before = tiles_with(front, fcells, layer);
        let c = coords.last();
        assert(chunk_on_map(coords[n - 1]));
        lemma_chunk_scan(c, cells.last(), layer, CHUNK_TILES as int);
        let last = chunk_tiles_with(c, cells.last(), layer, CHUNK_TILES as int);
        assert(all == before + last);
        assert forall|t: Coord| #[trigger] all.contains(t) == (before.contains(t)
            || last.contains(t)) by {
            if all.contains(t) {
                let i = all.index_of(t);
                if i < before.len() {
                    assert(before[i] == t);
                } else {
                    assert(last[i - before.len()] == t);
                }
            }
            if before.contains(t) {
                assert(all[before.index_of(t)] == t);
            }
            if last.contains(t) {
                assert(all[before.len() + last.index_of(t)] == t);
            }
        }
        assert forall|t: Coord| before.contains(t) implies !last.contains(t) by {
            assert(found(front, fcells, layer, t));
            let k = choose|k: int|
                0 <= k < front.len() && #[trigger] front[k] == chunk_coord(t.0, t.1)
                    && layer.on_spec(fcells[k][local_index(t.0, t.1)]);
            assert(coords[k] != coords[n - 1]);
        }
        assert forall|t: Coord| #[trigger] all.contains(t) == found(coords, cells, layer, t) by {
            lemma_place(t.0, t.1);
            assert(before.contains(t) == found(front, fcells, layer, t));
            assert(all.contains(t) == (before.contains(t) || last.contains(t)));
            if found(front, fcells, layer, t) {
                let k = choose|k: int|
                    0 <= k < front.len() && #[trigger] front[k] == chunk_coord(t.0, t.1)
                        && layer.on_spec(fcells[k][local_index(t.0, t.1)]);
                assert(coords[k] == chunk_coord(t.0, t.1));
            }
            if last.contains(t) {
                assert(coords[n - 1] == chunk_coord(t.0, t.1));
            }
            if found(coords, cells, layer, t) {
                let k = choose|k: int|
                    0 <= k < coords.len() && #[trigger] coords[k] == chunk_coord(t.0, t.1)
                        && layer.on_spec(cells[k][local_index(t.0, t.1)]);
                if k < n - 1 {
                    assert(front[k] == chunk_coord(t.0, t.1));
                }
            }
        }
        assert forall|i: int, j: int|
            0 <= i < all.len() && 0 <= j < all.len() && i != j implies all[i] != all[j] by {
            if i < before.len() && j >= before.len() {
                assert(before.contains(before[i]));
                assert(last.contains(last[j - before.len()]));
            }
            if j < before.len() && i >= before.len() {
                assert(before.contains(before[j]));
                assert(last.contains(last[i - before.len()]));
            }
        }
    } else {
        assert forall|t: Coord| #[trigger] all.contains(t) == found(coords, cells, layer, t) by {}
    }
}

/// A look over tidy land gives an exact list.
pub proof fn lemma_scanned(w: WorldView, layer: Layer)
    requires
        tidy(w),
    ensures
        exact(w, tiles_with(w.coords, w.cells, layer), layer),
{
    lemma_scan(w.coords, w.cells, layer);
    let tiles = tiles_with(w.coords, w.cells, layer);
    assert forall|t: Coord| tiles.contains(t) == on(w, layer, t) by {
        assert(tiles.contains(t) == found(w.coords, w.cells, layer, t));
        let c = chunk_coord(t.0, t.1);
        if w.loaded(t.0, t.1) {
            let i = w.coords.index_of(c);
            assert(w.coords[i] == c);
            if found(w.coords, w.cells, layer, t) {
                let k = choose|k: int|
                    0 <= k < w.coords.len() && #[trigger] w.coords[k] == c && layer.on_spec(
                        w.cells[k][local_index(t.0, t.1)],
                    );
                assert(w.coords[k] == c);
                assert(k == i);
            }
        } else if found(w.coords, w.cells, layer, t) {
            let k = choose|k: int|
                0 <= k < w.coords.len() && #[trigger] w.coords[k] == c && layer.on_spec(
                    w.cells[k][local_index(t.0, t.1)],
                );
            assert(w.coords.contains(w.coords[k]));
        }
    }
}

// --- building --------------------------------------------------------------------------

/// Whatever the player builds, the lists of buildings stay exact.
pub proof fn law_building_keeps_the_lists(g: GameView, x: i32, y: i32)
    requires
        registered(g),
    ensures
        registered(g.built(x, y)),
{
    let h = g.built(x, y);
    if g.can_build(x, y) {
        lemma_tile(g.world, x, y);
        let land = g.world.with_tile(x, y);
        let c = land.at(x, y);
        let t: Coord = (x, y);
        match g.build_mode {
            crate::game::BuildMode::House => {
                lemma_edit(land, x, y, Cell { house: true, ..c });
                assert(!on(g.world, Layer::House, t));
                lemma_added(g.world, h.world, g.player_house_tiles, Layer::House, t);
                lemma_others(g.world, h.world, g.world.enemy_house_tiles, Layer::EnemyHouse);
                lemma_others(g.world, h.world, g.cave_tiles, Layer::Cave);
                lemma_others(g.world, h.world, g.hut_tiles, Layer::Hut);
            },
            crate::game::BuildMode::Mine => {
                lemma_edit(land, x, y, Cell { cave: true, ..c });
                assert(!on(g.world, Layer::Cave, t));
                lemma_added(g.world, h.world, g.cave_tiles, Layer::Cave, t);
                lemma_others(g.world, h.world, g.world.enemy_house_tiles, Layer::EnemyHouse);
                lemma_others(g.world, h.world, g.player_house_tiles, Layer::House);
                lemma_others(g.world, h.world, g.hut_tiles, Layer::Hut);
            },
            crate::game::BuildMode::Bridge => {
                lemma_edit_alike(land, x, y, Cell { bridge: true, ..c });
                lemma_left_alone(g, h);
            },
            crate::game::BuildMode::Wall => {
                let wall = crate::chunk::Wall {
                    owner: owner_of_spec(Faction::Player),
                    hp: F32 { bits: crate::game::WALL_MAX_HP },
                };
                lemma_edit_alike(land, x, y, Cell { wall: Some(wall), ..c });
                lemma_left_alone(g, h);
            },
            _ => {
                lemma_left_alone(g, h);
            },
        }
    }
}

/// What changes other layers only leaves this list exact.
pub proof fn lemma_others(a: WorldView, b: WorldView, tiles: Seq<Coord>, layer: Layer)
    requires
        exact(a, tiles, layer),
        forall|t: Coord| #[trigger] on(b, layer, t) == on(a, layer, t),
    ensures
        exact(b, tiles, layer),
{
    assert forall|t: Coord| tiles.contains(t) == on(b, layer, t) by {
        assert(on(a, layer, t) == tiles.contains(t));
    }
}

// --- a tick ----------------------------------------------------------------------------

pub proof fn lemma_grown(g: GameView, i: int, step: F32)
    requires
        registered(g),
    ensures
        registered(g.grown_from(i, step)),
    decreases g.saplings.len() - i,
{
    if 0 <= i < g.saplings.len() {
        let s = g.saplings[i];
        let grow = s.grow.add_spec(step);
        let rest = crate::game::swap_removed(g.saplings, i);
        if !g.world.is_open_grass(s.tile.0, s.tile.1) {
            let next = GameView { saplings: rest, ..g };
            lemma_left_alone(g, next);
            lemma_grown(next, i, step);
        } else if (F32 { bits: crate::vec2::ONE }).le_spec(grow) {
            let (x, y) = s.tile;
            let tree = g.world.set_node(
                x,
                y,
                crate::chunk::Resource::Wood,
                crate::game::SAPLING_YIELD,
            );
            lemma_tile(g.world, x, y);
            let land = g.world.with_tile(x, y);
            let node = crate::chunk::Node {
                kind: crate::chunk::Resource::Wood,
                amount: crate::game::SAPLING_YIELD,
            };
            lemma_edit_alike(land, x, y, Cell { node: Some(node), ..land.at(x, y) });
            let next = GameView { world: tree, saplings: rest, ..g };
            lemma_left_alone(g, next);
            lemma_grown(next, i, step);
        } else {
            let young = g.saplings.update(i, crate::game::Sapling { tile: s.tile, grow });
            let next = GameView { saplings: young, ..g };
            lemma_left_alone(g, next);
            lemma_grown(next, i + 1, step);
        }
    }
}

pub proof fn lemma_prepared(g: GameView, dt: F32, sim: (i32, i32, i32, i32))
    requires
        registered(g),
    ensures
        registered(g.prepared(dt, sim)),
{
    let seen = g.surveyed(sim);
    if let Some(b) = g.bounds(sim, g.entities.len() as int) {
        let m = crate::game::ENSURE_MARGIN as int;
        lemma_region(
            g.world,
            crate::grid::shift_spec(b.0, -m),
            crate::grid::shift_spec(b.1, -m),
            crate::grid::shift_spec(b.2, m),
            crate::grid::shift_spec(b.3, m),
        );
    }
    lemma_left_alone(g, seen);
    reveal(GameView::enemy_raised);
    reveal(GameView::player_raised);
    let raised = seen.enemy_raised(dt).player_raised(dt);
    lemma_left_alone(seen, raised);
    lemma_grown(raised, 0, dt.div_spec(F32 { bits: crate::game::SAPLING_GROW_TIME }));
}

pub proof fn lemma_walls_hit(w: WorldView, walls: Seq<(Coord, F32)>, n: int)
    requires
        tidy(w),
    ensures
        tidy(walls_hit(w, walls, n)),
        same_buildings(w, walls_hit(w, walls, n)),
        walls_hit(w, walls, n).enemy_house_tiles == w.enemy_house_tiles,
    decreases n,
{
    if n > 0 {
        lemma_walls_hit(w, walls, n - 1);
        let before = walls_hit(w, walls, n - 1);
        let ((x, y), dmg) = walls[n - 1];
        if let Some(wall) = before.wall(x, y) {
            let left = if wall.hp.sub_spec(dmg).le_spec(F32 { bits: 0 }) {
                None
            } else {
                Some(crate::chunk::Wall { hp: wall.hp.sub_spec(dmg), ..wall })
            };
            lemma_here(before, x, y);
            lemma_edit_alike(before, x, y, Cell { wall: left, ..before.at(x, y) });
        }
    }
}

/// On a loaded tile of tidy land nothing grows in a hut.
pub proof fn lemma_here(w: WorldView, x: i32, y: i32)
    requires
        tidy(w),
        w.loaded(x, y),
    ensures
        w.at(x, y).hut is Some ==> w.at(x, y).node is None,
{
    if w.at(x, y).hut is Some {
        assert(on(w, Layer::Hut, (x, y)));
    }
}

pub proof fn lemma_hut_hit(g: GameView, t: Coord, dmg: F32)
    requires
        registered(g),
    ensures
        registered(g.hut_hit(t, dmg)),
{
    reveal(GameView::hut_hit);
    let h = g.hut_hit(t, dmg);
    match g.world.hut(t.0, t.1) {
        None => {
            lemma_left_alone(g, h);
        },
        Some(hut) => {
            lemma_here(g.world, t.0, t.1);
            let c = g.world.at(t.0, t.1);
            if g.world.hut_falls(t.0, t.1, dmg) is Some {
                lemma_edit(g.world, t.0, t.1, Cell { hut: None, ..c });
                lemma_without(g.hut_tiles, t);
                assert(exact(h.world, h.hut_tiles, Layer::Hut)) by {
                    assert forall|u: Coord| h.hut_tiles.contains(u) == on(
                        h.world,
                        Layer::Hut,
                        u,
                    ) by {
                        assert(g.hut_tiles.contains(u) == on(g.world, Layer::Hut, u));
                    }
                }
                lemma_others(g.world, h.world, g.world.enemy_house_tiles, Layer::EnemyHouse);
                lemma_others(g.world, h.world, g.player_house_tiles, Layer::House);
                lemma_others(g.world, h.world, g.cave_tiles, Layer::Cave);
            } else {
                let left = crate::chunk::Hut { hp: hut.hp.sub_spec(dmg), ..hut };
                lemma_edit_alike(g.world, t.0, t.1, Cell { hut: Some(left), ..c });
                lemma_left_alone(g, h);
            }
        },
    }
}

pub proof fn lemma_huts_hit(g: GameView, huts: Seq<(Coord, F32)>, n: int)
    requires
        registered(g),
    ensures
        registered(g.huts_hit(huts, n)),
    decreases n,
{
    if n > 0 {
        lemma_huts_hit(g, huts, n - 1);
        lemma_hut_hit(g.huts_hit(huts, n - 1), huts[n - 1].0, huts[n - 1].1);
    }
}

pub proof fn lemma_fought(g: GameView, dt: F32, sim: (i32, i32, i32, i32))
    requires
        registered(g),
    ensures
        registered(g.fought(dt, sim)),
{
    let c = clash_spec(g.world, g.entities, sim, dt, g.entities.len() as int);
    lemma_walls_hit(g.world, c.walls, c.walls.len() as int);
    lemma_left_alone(g, g.struck(c));
    lemma_huts_hit(g.struck(c), c.huts, c.huts.len() as int);
}

/// Only a tree is ever turned into a hut.
pub proof fn lemma_huts_from_trees(
    s: SceneView,
    e: EntityView,
    rng: u64,
    uses: Map<u64, u32>,
    acting: bool,
    under: bool,
    dt: F32,
)
    ensures
        ai_spec(s, e, rng, uses, acting, under, dt).event matches Some(StepEvent::BuildHut(t))
            ==> is_tree(s.world, t),
{
    reveal(ai_spec);
    let later = EntityView { repath: e.repath.sub_spec(dt), ..e };
    let owner = owner_of_spec(e.faction);
    if e.job == Job::Knight && !under {
        lemma_soldier_huts(s, later, rng, uses, owner, acting, dt);
    }
}

proof fn lemma_soldier_huts(
    s: SceneView,
    e: EntityView,
    rng: u64,
    uses: Map<u64, u32>,
    owner: u8,
    acting: bool,
    dt: F32,
)
    ensures
        soldier_spec(s, e, rng, uses, owner, acting, dt).event matches Some(StepEvent::BuildHut(t))
            ==> is_tree(s.world, t),
{
}

pub proof fn lemma_happened(g: GameView, i: int, event: Option<StepEvent>)
    requires
        registered(g),
        event matches Some(StepEvent::BuildHut(t)) ==> is_tree(g.world, t),
    ensures
        registered(g.happened(i, event)),
{
    reveal(GameView::happened);
    let h = g.happened(i, event);
    let owner = owner_of_spec(g.entities[i].faction);
    match event {
        Some(StepEvent::Harvest(t)) => {
            if let Some(n) = g.world.node(t.0, t.1) {
                let left = if n.amount <= 1 {
                    None
                } else {
                    Some(crate::chunk::Node { amount: (n.amount - 1) as u32, ..n })
                };
                lemma_here(g.world, t.0, t.1);
                lemma_edit_alike(
                    g.world,
                    t.0,
                    t.1,
                    Cell { node: left, ..g.world.at(t.0, t.1) },
                );
            }
            lemma_left_alone(g, h);
        },
        Some(StepEvent::RaiseWall(t)) => {
            lemma_tile(g.world, t.0, t.1);
            let land = g.world.with_tile(t.0, t.1);
            let wall = crate::chunk::Wall { owner, hp: F32 { bits: crate::game::WALL_MAX_HP } };
            lemma_edit_alike(land, t.0, t.1, Cell { wall: Some(wall), ..land.at(t.0, t.1) });
            lemma_left_alone(g, h);
        },
        Some(StepEvent::Demolish(t)) => {
            if g.world.loaded(t.0, t.1) {
                lemma_edit_alike(
                    g.world,
                    t.0,
                    t.1,
                    Cell { node: None, ..g.world.at(t.0, t.1) },
                );
            }
            lemma_left_alone(g, h);
        },
        Some(StepEvent::BuildHut(t)) => {
            lemma_tile(g.world, t.0, t.1);
            lemma_here(g.world, t.0, t.1);
            let land = g.world.with_tile(t.0, t.1);
            let hut = crate::chunk::Hut {
                owner,
                hp: F32 { bits: crate::turn::HUT_MAX_HP },
                occupants: 0,
            };
            lemma_edit(land, t.0, t.1, Cell { node: None, hut: Some(hut), ..land.at(t.0, t.1) });
            assert(!on(g.world, Layer::Hut, t));
            lemma_added(g.world, h.world, g.hut_tiles, Layer::Hut, t);
            lemma_beside(g.world, land, h.world, t);
            lemma_others(g.world, h.world, g.world.enemy_house_tiles, Layer::EnemyHouse);
            lemma_others(g.world, h.world, g.player_house_tiles, Layer::House);
            lemma_others(g.world, h.world, g.cave_tiles, Layer::Cave);
        },
        Some(StepEvent::Hide(t)) => {
            if let Some(hut) = g.world.hut(t.0, t.1) {
                if hut.occupants < crate::behavior::HUT_CAPACITY {
                    lemma_occupants(g.world, t, (hut.occupants + 1) as u8);
                }
            }
            lemma_left_alone(g, h);
        },
        _ => {
            lemma_left_alone(g, h);
        },
    }
}

/// A hut that takes the place of a node leaves the other layers as they were.
proof fn lemma_beside(a: WorldView, land: WorldView, b: WorldView, t: Coord)
    requires
        same_buildings(a, land),
        land.loaded(t.0, t.1),
        forall|layer: Layer, u: Coord|
            u != t ==> #[trigger] on(b, layer, u) == on(land, layer, u),
        forall|layer: Layer|
            layer != Layer::Hut ==> #[trigger] on(b, layer, t) == layer.on_spec(
                land.at(t.0, t.1),
            ),
    ensures
        forall|layer: Layer, u: Coord|
            layer != Layer::Hut ==> #[trigger] on(b, layer, u) == on(a, layer, u),
{
    assert forall|layer: Layer, u: Coord| layer != Layer::Hut implies #[trigger] on(b, layer, u)
        == on(a, layer, u) by {
        assert(on(land, layer, u) == on(a, layer, u));
    }
}

pub proof fn lemma_occupants(w: WorldView, t: Coord, n: u8)
    requires
        tidy(w),
        w.hut(t.0, t.1) is Some,
    ensures
        tidy(w.with_occupants(t.0, t.1, n)),
        same_buildings(w, w.with_occupants(t.0, t.1, n)),
        w.with_occupants(t.0, t.1, n).enemy_house_tiles == w.enemy_house_tiles,
{
    let h = w.hut(t.0, t.1)->0;
    lemma_here(w, t.0, t.1);
    lemma_edit_alike(
        w,
        t.0,
        t.1,
        Cell { hut: Some(crate::chunk::Hut { occupants: n, ..h }), ..w.at(t.0, t.1) },
    );
}

pub proof fn lemma_thought(g: GameView, uses: Map<u64, u32>, turn: TurnView, n: int)
    requires
        registered(g),
    ensures
        registered(g.thought(uses, turn, n).0),
    decreases n,
{
    if n > 0 {
        lemma_thought(g, uses, turn, n - 1);
        let (before, u) = g.thought(uses, turn, n - 1);
        reveal(GameView::moved);
        let i = n - 1;
        let e = before.entities[i];
        if crate::game::in_sim_spec(turn.sim, e.tile()) && !e.slain() {
            let under = match e.faction {
                Faction::Player => turn.player_under,
                Faction::Enemy => turn.enemy_under,
            };
            let scene = before.scene(turn, e.faction);
            let step = ai_spec(scene, e, before.rng, u, turn.acting[i], under, turn.dt);
            lemma_huts_from_trees(scene, e, before.rng, u, turn.acting[i], under, turn.dt);
            let stepped = GameView {
                entities: before.entities.update(i, step.e),
                rng: step.rng,
                ..before
            };
            lemma_left_alone(before, stepped);
            lemma_happened(stepped, i, step.event);
        }
    }
}

pub proof fn lemma_cleared(g: GameView, i: int)
    requires
        registered(g),
    ensures
        registered(g.cleared_from(i)),
    decreases g.entities.len() - i,
{
    if 0 <= i < g.entities.len() {
        let rest = GameView { entities: crate::game::swap_removed(g.entities, i), ..g };
        if g.entities[i].slain() {
            let next = match g.entities[i].faction {
                Faction::Enemy => GameView {
                    enemies_defeated: g.enemies_defeated.wrapping_add(1),
                    ..rest
                },
                Faction::Player => GameView {
                    units_lost: g.units_lost.wrapping_add(1),
                    ..rest
                },
            };
            lemma_left_alone(g, next);
            lemma_cleared(next, i);
        } else if g.entities[i].sheltered {
            lemma_left_alone(g, rest);
            lemma_cleared(rest, i);
        } else {
            lemma_cleared(g, i + 1);
        }
    }
}

pub proof fn lemma_opened(g: GameView, huts: Seq<Coord>, n: int)
    requires
        registered(g),
    ensures
        registered(g.all_opened(huts, n)),
    decreases n,
{
    if n > 0 {
        lemma_opened(g, huts, n - 1);
        reveal(GameView::opened);
        let before = g.all_opened(huts, n - 1);
        let t = huts[n - 1];
        if before.world.hut(t.0, t.1) is Some {
            lemma_occupants(before.world, t, 0);
        }
        lemma_left_alone(before, before.opened(t));
    }
}

/// Land on which only houses changed hands.
pub open spec fn rehoused(a: WorldView, b: WorldView) -> bool {
    &&& tidy(b)
    &&& forall|t: Coord| #[trigger] on(b, Layer::Cave, t) == on(a, Layer::Cave, t)
    &&& forall|t: Coord| #[trigger] on(b, Layer::Hut, t) == on(a, Layer::Hut, t)
}

pub proof fn lemma_reowned(w: WorldView, x: i32, y: i32, r: int, from: u8, to: u8)
    requires
        tidy(w),
    ensures
        tidy(w.reown_walls_near(x, y, r, from, to)),
        same_buildings(w, w.reown_walls_near(x, y, r, from, to)),
{
    let after = w.reown_walls_near(x, y, r, from, to);
    assert forall|i: int| 0 <= i < after.cells.len() implies (#[trigger] after.cells[i]).len()
        == CHUNK_TILES by {
        assert(w.cells[i].len() == CHUNK_TILES);
    }
    assert forall|t: Coord| after.loaded(t.0, t.1) implies #[trigger] alike(
        after.at(t.0, t.1),
        w.at(t.0, t.1),
    ) && after.at(t.0, t.1).node == w.at(t.0, t.1).node by {
        lemma_place(t.0, t.1);
        let k = w.coords.index_of(chunk_coord(t.0, t.1));
        let j = local_index(t.0, t.1);
        assert(w.cells[k].len() == CHUNK_TILES);
        assert(after.cells[k][j] == w.reowned_cell(k, j, (x, y), r, from, to));
    }
    assert forall|layer: Layer, t: Coord| on(after, layer, t) == on(w, layer, t) by {
        if after.loaded(t.0, t.1) {
            assert(alike(after.at(t.0, t.1), w.at(t.0, t.1)));
        }
    }
    assert forall|t: Coord| #[trigger] on(after, Layer::Hut, t) implies after.at(
        t.0,
        t.1,
    ).node is None by {
        assert(alike(after.at(t.0, t.1), w.at(t.0, t.1)));
        assert(on(w, Layer::Hut, t));
    }
}

pub proof fn lemma_handed(w: WorldView, village: Seq<Coord>, from: u8, to: u8, n: int)
    requires
        tidy(w),
    ensures
        rehoused(w, handed_over(w, village, from, to, n)),
    decreases n,
{
    if n > 0 {
        lemma_handed(w, village, from, to, n - 1);
        let before = handed_over(w, village, from, to, n - 1);
        let t = village[n - 1];
        lemma_tile(before, t.0, t.1);
        let land = before.with_tile(t.0, t.1);
        let c = Cell { house: to == 0, enemy_house: to != 0, ..land.at(t.0, t.1) };
        lemma_edit(land, t.0, t.1, c);
        let converted = before.convert_house(t.0, t.1, to);
        lemma_reowned(
            converted,
            t.0,
            t.1,
            crate::capture::WALL_CAPTURE_RADIUS as int,
            from,
            to,
        );
        let after = handed_over(w, village, from, to, n);
        assert forall|layer: Layer, u: Coord|
            layer == Layer::Cave || layer == Layer::Hut implies #[trigger] on(after, layer, u) == on(
            w,
            layer,
            u,
        ) by {
            assert(on(after, layer, u) == on(converted, layer, u));
            assert(on(land, layer, u) == on(before, layer, u));
            assert(on(before, layer, u) == on(w, layer, u));
        }
    }
}

pub proof fn lemma_villages(g: GameView, villages: Seq<Seq<Coord>>, n: int)
    requires
        tidy(g.world),
    ensures
        rehoused(g.world, g.won(villages, n).world),
        rehoused(g.world, g.fallen(villages, n).world),
        g.won(villages, n).cave_tiles == g.cave_tiles,
        g.won(villages, n).hut_tiles == g.hut_tiles,
        g.won(villages, n).player_house_tiles == g.player_house_tiles,
        g.fallen(villages, n).cave_tiles == g.cave_tiles,
        g.fallen(villages, n).hut_tiles == g.hut_tiles,
    decreases n,
{
    if n > 0 {
        lemma_villages(g, villages, n - 1);
        let v = villages[n - 1];
        lemma_handed(g.won(villages, n - 1).world, v, 1, 0, v.len() as int);
        lemma_handed(g.fallen(villages, n - 1).world, v, 0, 1, v.len() as int);
        lemma_rehoused(
            g.world,
            g.won(villages, n - 1).world,
            handed_over(g.won(villages, n - 1).world, v, 1, 0, v.len() as int),
        );
        lemma_rehoused(
            g.world,
            g.fallen(villages, n - 1).world,
            handed_over(g.fallen(villages, n - 1).world, v, 0, 1, v.len() as int),
        );
    }
}

pub proof fn lemma_rehoused(a: WorldView, b: WorldView, c: WorldView)
    requires
        rehoused(a, b),
        rehoused(b, c),
    ensures
        rehoused(a, c),
{
    assert forall|t: Coord| #[trigger] on(c, Layer::Cave, t) == on(a, Layer::Cave, t) by {
        assert(on(b, Layer::Cave, t) == on(a, Layer::Cave, t));
    }
    assert forall|t: Coord| #[trigger] on(c, Layer::Hut, t) == on(a, Layer::Hut, t) by {
        assert(on(b, Layer::Hut, t) == on(a, Layer::Hut, t));
    }
}

/// Villages that change hands leave the lists of buildings exact.
pub proof fn law_captures_keep_the_lists(g: GameView)
    requires
        registered(g),
    ensures
        registered(g.captured()),
{
    reveal(GameView::captured);
    let theirs = cluster_spec(g.world.enemy_house_tiles);
    let ours = cluster_spec(g.player_house_tiles);
    let won = g.won(theirs, theirs.len() as int);
    lemma_villages(g, theirs, theirs.len() as int);
    lemma_villages(won, ours, ours.len() as int);
    let after = won.fallen(ours, ours.len() as int);
    lemma_rehoused(g.world, won.world, after.world);
    if any_undefended(g.entities, theirs, Faction::Enemy) || any_undefended(
        g.entities,
        ours,
        Faction::Player,
    ) {
        let h = g.captured();
        let w = after.world;
        assert(tidy(h.world)) by {
            assert forall|t: Coord| #[trigger] on(h.world, Layer::Hut, t) implies h.world.at(
                t.0,
                t.1,
            ).node is None by {
                assert(on(w, Layer::Hut, t));
            }
        }
        lemma_scanned(h.world, Layer::EnemyHouse);
        lemma_scanned(h.world, Layer::House);
        assert forall|layer: Layer, t: Coord| on(h.world, layer, t) == on(w, layer, t) by {}
        lemma_others(g.world, w, g.cave_tiles, Layer::Cave);
        lemma_others(g.world, w, g.hut_tiles, Layer::Hut);
        lemma_kept(w, h.world, g.cave_tiles, Layer::Cave);
        lemma_kept(w, h.world, g.hut_tiles, Layer::Hut);
    } else {
        crate::capture::law_defended_villages_stay(g);
    }
}

/// A tick leaves the lists of buildings exact.
pub proof fn law_tick_keeps_the_lists(g: GameView, dt: F32, sim: (i32, i32, i32, i32))
    requires
        registered(g),
    ensures
        registered(g.updated(dt, sim)),
{
    let step = dt.min_spec(F32 { bits: MAX_STEP });
    lemma_prepared(g, step, sim);
    let ready = g.prepared(step, sim);
    lemma_fought(ready, step, sim);
    let n = ready.entities.len() as int;
    let uses = rosters(ready.entities, n);
    lemma_thought(ready.fought(step, sim), uses, ready.turn(step, sim), n);
    let acted = ready.fought(step, sim).thought(uses, ready.turn(step, sim), n).0;
    lemma_cleared(acted, 0);
    let alive = acted.cleared_from(0);
    lemma_opened(alive, alive.hut_tiles, alive.hut_tiles.len() as int);
    let out = alive.all_opened(alive.hut_tiles, alive.hut_tiles.len() as int);
    lemma_left_alone(out, out.rallied());
    law_captures_keep_the_lists(out.rallied());
}

// --- saves -----------------------------------------------------------------------------

/// The same tiles, each once, in any order.
pub open spec fn same_tiles(a: Seq<Coord>, b: Seq<Coord>) -> bool {
    &&& a.no_duplicates()
    &&& b.no_duplicates()
    &&& a.len() == b.len()
    &&& forall|t: Coord| a.contains(t) == b.contains(t)
}

proof fn lemma_same_tiles(w: WorldView, a: Seq<Coord>, b: Seq<Coord>, layer: Layer)
    requires
        exact(w, a, layer),
        exact(w, b, layer),
    ensures
        same_tiles(a, b),
{
    assert forall|t: Coord| a.contains(t) == b.contains(t) by {
        assert(a.contains(t) == on(w, layer, t));
        assert(b.contains(t) == on(w, layer, t));
    }
    assert(a.to_set() =~= b.to_set()) by {
        assert forall|t: Coord| a.to_set().contains(t) == b.to_set().contains(t) by {
            assert(a.contains(t) == b.contains(t));
        }
    }
    a.unique_seq_to_set();
    b.unique_seq_to_set();
}

/// Every hut has an owner, as a save asks.
pub open spec fn huts_owned(w: WorldView) -> bool {
    forall|t: Coord| #[trigger]
        on(w, Layer::Hut, t) ==> w.at(t.0, t.1).hut->0.owner != crate::chunk::NO_OWNER
}

/// The land that a save brings back has the same buildings.
proof fn lemma_saved_land(w: WorldView, back: WorldView)
    requires
        tidy(w),
        huts_owned(w),
        back.coords == w.coords,
        back.cells == saved_cells(w.cells),
    ensures
        tidy(back),
        same_buildings(w, back),
{
    assert forall|i: int| 0 <= i < back.cells.len() implies (#[trigger] back.cells[i]).len()
        == CHUNK_TILES by {
        assert(w.cells[i].len() == CHUNK_TILES);
        assert(back.cells[i] == saved_chunk(w.cells[i]));
    }
    assert forall|t: Coord| w.loaded(t.0, t.1) implies #[trigger] back.at(t.0, t.1)
        == saved_cell(w.at(t.0, t.1)) by {
        lemma_place(t.0, t.1);
        let k = w.coords.index_of(chunk_coord(t.0, t.1));
        assert(w.coords[k] == chunk_coord(t.0, t.1));
        assert(w.cells[k].len() == CHUNK_TILES);
        assert(back.cells[k] == saved_chunk(w.cells[k]));
    }
    assert forall|layer: Layer, t: Coord| on(back, layer, t) == on(w, layer, t) by {
        if w.loaded(t.0, t.1) {
            assert(back.at(t.0, t.1) == saved_cell(w.at(t.0, t.1)));
            if w.at(t.0, t.1).hut is Some {
                assert(on(w, Layer::Hut, t));
            }
        }
    }
    assert forall|t: Coord| #[trigger] on(back, Layer::Hut, t) implies back.at(
        t.0,
        t.1,
    ).node is None by {
        assert(on(w, Layer::Hut, t));
        assert(back.at(t.0, t.1) == saved_cell(w.at(t.0, t.1)));
    }
}

/// A game that is saved and loaded again has exact lists, and each of them names the
/// tiles that it named before, in the order of the land. (A hut of nobody's is not kept.)
pub proof fn law_reload_keeps_the_lists(g: GameView)
    requires
        registered(g),
        huts_owned(g.world),
    ensures
        registered(brought_back(g)),
        same_tiles(brought_back(g).world.enemy_house_tiles, g.world.enemy_house_tiles),
        same_tiles(brought_back(g).player_house_tiles, g.player_house_tiles),
        same_tiles(brought_back(g).cave_tiles, g.cave_tiles),
        same_tiles(brought_back(g).hut_tiles, g.hut_tiles),
{
    let back = brought_back(g);
    let w = back.world;
    lemma_saved_land(g.world, w);
    lemma_scanned(w, Layer::EnemyHouse);
    lemma_scanned(w, Layer::House);
    lemma_scanned(w, Layer::Cave);
    lemma_scanned(w, Layer::Hut);
    lemma_kept(g.world, w, g.world.enemy_house_tiles, Layer::EnemyHouse);
    lemma_kept(g.world, w, g.player_house_tiles, Layer::House);
    lemma_kept(g.world, w, g.cave_tiles, Layer::Cave);
    lemma_kept(g.world, w, g.hut_tiles, Layer::Hut);
    lemma_same_tiles(w, w.enemy_house_tiles, g.world.enemy_house_tiles, Layer::EnemyHouse);
    lemma_same_tiles(w, back.player_house_tiles, g.player_house_tiles, Layer::House);
    lemma_same_tiles(w, back.cave_tiles, g.cave_tiles, Layer::Cave);
    lemma_same_tiles(w, back.hut_tiles, g.hut_tiles, Layer::Hut);
}

/// Loading a save reconstructs the session exactly, but for the order in which buildings
/// are listed: the land, the people and all that is going on are as they were, and each
/// list names the same tiles. (The tiles must hold what a save can keep, and the session
/// must fit.)
pub proof fn law_save_reconstructs_exactly(g: GameView, cam: CamState)
    requires
        registered(g),
        countable(g),
        session_fits(g),
        all_plain(g.world),
    ensures
        ({
            let back = game_at(save_bytes(g, cam));
            &&& back == (GameView {
                world: WorldView { enemy_house_tiles: back.world.enemy_house_tiles, ..g.world },
                player_house_tiles: back.player_house_tiles,
                cave_tiles: back.cave_tiles,
                hut_tiles: back.hut_tiles,
                ..g
            })
            &&& registered(back)
            &&& same_tiles(back.world.enemy_house_tiles, g.world.enemy_house_tiles)
            &&& same_tiles(back.player_house_tiles, g.player_house_tiles)
            &&& same_tiles(back.cave_tiles, g.cave_tiles)
            &&& same_tiles(back.hut_tiles, g.hut_tiles)
            &&& cam_at(save_bytes(g, cam)) == cam
        }),
{
    law_save_round_trip(g, cam);
    law_save_keeps_land(g);
    assert(huts_owned(g.world)) by {
        assert forall|t: Coord| #[trigger] on(g.world, Layer::Hut, t) implies g.world.at(
            t.0,
            t.1,
        ).hut->0.owner != crate::chunk::NO_OWNER by {
            lemma_place(t.0, t.1);
            let k = g.world.coords.index_of(chunk_coord(t.0, t.1));
            assert(g.world.coords[k] == chunk_coord(t.0, t.1));
            assert(g.world.cells[k].len() == CHUNK_TILES);
            assert(crate::roundtrip::plain(g.world.cells[k][local_index(t.0, t.1)]));
        }
    }
    law_reload_keeps_the_lists(g);
}

} // verus!
