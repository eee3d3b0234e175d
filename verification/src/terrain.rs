//! World generation: what a chunk looks like before anyone has touched it.

use vstd::prelude::*;
use crate::chunk::{
    bare_cell, li, li_spec, place, place_spec, Cell, Chunk, Node, Resource, Tile, CHUNK,
    CHUNK_TILES,
};
use crate::float::F32;
use crate::noise::{elevation, elevation_spec, scatter, scatter_spec};

verus! {

/// Elevation below which a tile is under water (-0.12).
pub const SEA_LEVEL: u32 = 0xbdf5_c28f;

/// Resource field above which a tree stands (0.45).
pub const TREE_LEVEL: u32 = 0x3ee6_6666;

/// Resource field below which a rock lies (-0.5).
pub const ROCK_LEVEL: u32 = 0xbf00_0000;

/// Units in a freshly generated node.
pub const NODE_AMOUNT: u32 = 5;

/// Width of the water that is bridged automatically (within a single chunk): anything
/// wider stays open, a genuine barrier.
pub const BRIDGE_GAP: i32 = 1;

/// What grows at a given elevation `e` and resource field `s`.
pub open spec fn terrain_cell_spec(e: F32, s: F32) -> Cell {
    if e.lt_spec(F32 { bits: SEA_LEVEL }) {
        bare_cell(Tile::Water)
    } else if (F32 { bits: TREE_LEVEL }).lt_spec(s) {
        Cell {
            node: Some(Node { kind: Resource::Wood, amount: NODE_AMOUNT }),
            ..bare_cell(Tile::Grass)
        }
    } else if s.lt_spec(F32 { bits: ROCK_LEVEL }) {
        Cell {
            node: Some(Node { kind: Resource::Stone, amount: NODE_AMOUNT }),
            ..bare_cell(Tile::Grass)
        }
    } else {
        bare_cell(Tile::Grass)
    }
}

/// What grows at a given elevation `e` and resource field `s`: water below sea
/// level, otherwise grass with a tree, a rock or nothing on it.
pub fn terrain_cell(e: F32, s: F32) -> (r: Cell)
    ensures
        r == terrain_cell_spec(e, s),
{
    let mut tile: Tile = Tile::Grass;
    let mut node: Option<Node> = None;
    if e.lt(F32 { bits: SEA_LEVEL }) {
        tile = Tile::Water;
    } else if (F32 { bits: TREE_LEVEL }).lt(s) {
        node = Some(Node { kind: Resource::Wood, amount: NODE_AMOUNT });
    } else if s.lt(F32 { bits: ROCK_LEVEL }) {
        node = Some(Node { kind: Resource::Stone, amount: NODE_AMOUNT });
    }
    Cell {
        tile,
        node,
        house: false,
        enemy_house: false,
        bridge: false,
        wall: None,
        cave: false,
        hut: None,
    }
}

/// A tile of the untouched world, before bridges.
pub open spec fn ground_spec(seed: i32, t: (i32, i32)) -> Cell {
    terrain_cell_spec(elevation_spec(seed, t.0, t.1), scatter_spec(seed, t.0, t.1))
}

pub open spec fn ground_cells(seed: i32, cx: i32, cy: i32) -> Seq<Cell> {
    Seq::new(CHUNK_TILES as nat, |i: int| ground_spec(seed, place_spec(cx, cy, i)))
}

// --- bridges ----------------------------------------------------------------

/// Index of the tile `along` a line and `across` from the chunk's edge; a line
/// is a row of the chunk, or a column of it.
pub open spec fn line_index(row: bool, along: int, across: int) -> int {
    if row {
        li_spec(along, across)
    } else {
        li_spec(across, along)
    }
}

/// Is there water there within the chunk?
pub open spec fn water_at(cells: Seq<Cell>, row: bool, along: int, across: int) -> bool {
    &&& 0 <= along < CHUNK
    &&& 0 <= across < CHUNK
    &&& cells[line_index(row, along, across)].tile == Tile::Water
}

/// From `a` up to `b` a line crosses a channel worth a bridge: a single tile of
/// water with land at both ends, where the water goes on to both sides.
pub open spec fn is_channel(cells: Seq<Cell>, row: bool, across: int, a: int, b: int) -> bool {
    &&& 0 < a < b < CHUNK
    &&& b - a == BRIDGE_GAP
    &&& cells[line_index(row, a - 1, across)].tile == Tile::Grass
    &&& cells[line_index(row, b, across)].tile == Tile::Grass
    &&& forall|p: int| #![trigger line_index(row, p, across)] a <= p < b ==> {
        &&& water_at(cells, row, p, across)
        &&& water_at(cells, row, p, across - 1)
        &&& water_at(cells, row, p, across + 1)
    }
}

/// Does a channel of its row (or column) cover the tile?
pub open spec fn spanned(cells: Seq<Cell>, row: bool, along: int, across: int) -> bool {
    exists|a: int, b: int| a <= along < b && #[trigger] is_channel(cells, row, across, a, b)
}

/// The tiles with every channel bridged, along rows and along columns.
pub open spec fn bridged(cells: Seq<Cell>) -> Seq<Cell> {
    Seq::new(
        CHUNK_TILES as nat,
        |i: int|
            Cell {
                bridge: cells[i].bridge || spanned(cells, true, i % CHUNK as int, i / CHUNK as int)
                    || spanned(cells, false, i / CHUNK as int, i % CHUNK as int),
                ..cells[i]
            },
    )
}

/// The chunk that a seed generates at chunk coordinates `(cx, cy)`.
pub open spec fn chunk_spec(seed: i32, cx: i32, cy: i32) -> Seq<Cell> {
    bridged(ground_cells(seed, cx, cy))
}

/// Generate one chunk deterministically from the seed and chunk coordinates.
pub fn generate_chunk(seed: i32, cx: i32, cy: i32) -> (r: Chunk)
    ensures
        r.wf(),
        r@ == chunk_spec(seed, cx, cy),
{
    let mut chunk: Chunk = Chunk::blank();
    let mut i: usize = 0;
    while i < CHUNK_TILES
        invariant
            chunk.wf(),
            i <= CHUNK_TILES,
            forall|j: int|
                0 <= j < i ==> #[trigger] chunk@[j] == ground_spec(seed, place_spec(cx, cy, j)),
        decreases CHUNK_TILES - i,
    {
        let t: (i32, i32) = place(cx, cy, i);
        let c: Cell = terrain_cell(elevation(seed, t.0, t.1), scatter(seed, t.0, t.1));
        chunk.set_cell(i, c);
        i = i + 1;
    }
    assert(chunk@ =~= ground_cells(seed, cx, cy));
    span_bridges(&mut chunk);
    chunk
}

fn line_place(row: bool, along: i32, across: i32) -> (r: usize)
    requires
        0 <= along < CHUNK,
        0 <= across < CHUNK,
    ensures
        r == line_index(row, along as int, across as int),
        r < CHUNK_TILES,
{
    if row {
        li(along, across)
    } else {
        li(across, along)
    }
}

/// Is the local tile within this chunk water? (Out-of-chunk reads as non-water.)
fn tile_is_water(chunk: &Chunk, row: bool, along: i32, across: i32) -> (r: bool)
    requires
        chunk.wf(),
    ensures
        r == water_at(chunk@, row, along as int, across as int),
{
    if 0 <= along && along < CHUNK && 0 <= across && across < CHUNK {
        let i: usize = line_place(row, along, across);
        assert(chunk@[i as int].tile == chunk.tiles@[i as int]);
        chunk.tiles[i] == Tile::Water
    } else {
        false
    }
}

/// Place of tile `i` along a line, and the line's own number.
pub open spec fn along_of(row: bool, i: int) -> int {
    if row {
        i % CHUNK as int
    } else {
        i / CHUNK as int
    }
}

pub open spec fn across_of(row: bool, i: int) -> int {
    if row {
        i / CHUNK as int
    } else {
        i % CHUNK as int
    }
}

/// A tile with its bridge, where a channel along the line covers it.
pub open spec fn spanned_cell(cells: Seq<Cell>, row: bool, i: int) -> Cell {
    Cell {
        bridge: cells[i].bridge || spanned(cells, row, along_of(row, i), across_of(row, i)),
        ..cells[i]
    }
}

pub open spec fn lines_bridged(cells: Seq<Cell>, row: bool) -> Seq<Cell> {
    Seq::new(CHUNK_TILES as nat, |i: int| spanned_cell(cells, row, i))
}

proof fn lemma_line_index(row: bool, i: int)
    requires
        0 <= i < CHUNK_TILES,
    ensures
        line_index(row, along_of(row, i), across_of(row, i)) == i,
        0 <= along_of(row, i) < CHUNK,
        0 <= across_of(row, i) < CHUNK,
{
}

proof fn lemma_parts_of_line_index(row: bool, along: int, across: int)
    requires
        0 <= along < CHUNK,
        0 <= across < CHUNK,
    ensures
        0 <= line_index(row, along, across) < CHUNK_TILES,
        along_of(row, line_index(row, along, across)) == along,
        across_of(row, line_index(row, along, across)) == across,
{
}

/// Channels depend on the ground alone.
proof fn lemma_channels_same_ground(c: Seq<Cell>, d: Seq<Cell>, row: bool, along: int, across: int)
    requires
        c.len() == CHUNK_TILES,
        d.len() == CHUNK_TILES,
        forall|i: int| 0 <= i < CHUNK_TILES ==> (#[trigger] c[i]).tile == d[i].tile,
        0 <= across < CHUNK,
    ensures
        spanned(c, row, along, across) == spanned(d, row, along, across),
{
    assert forall|a: int, b: int|
        #![trigger is_channel(c, row, across, a, b)]
        #![trigger is_channel(d, row, across, a, b)]
        is_channel(c, row, across, a, b) == is_channel(d, row, across, a, b) by {
        assert forall|p: int, q: int| #[trigger]
            water_at(c, row, p, q) == water_at(d, row, p, q) by {
            if 0 <= p < CHUNK && 0 <= q < CHUNK {
                lemma_parts_of_line_index(row, p, q);
                assert(c[line_index(row, p, q)].tile == d[line_index(row, p, q)].tile);
            }
        }
        if 0 < a < b < CHUNK {
            lemma_parts_of_line_index(row, a - 1, across);
            lemma_parts_of_line_index(row, b, across);
            assert(c[line_index(row, a - 1, across)].tile == d[line_index(
                row,
                a - 1,
                across,
            )].tile);
            assert(c[line_index(row, b, across)].tile == d[line_index(row, b, across)].tile);
            if is_channel(c, row, across, a, b) {
                assert forall|p: int| #![trigger line_index(row, p, across)] a <= p < b implies {
                    &&& water_at(d, row, p, across)
                    &&& water_at(d, row, p, across - 1)
                    &&& water_at(d, row, p, across + 1)
                } by {
                    assert(water_at(c, row, p, across));
                    assert(water_at(c, row, p, across - 1));
                    assert(water_at(c, row, p, across + 1));
                }
            }
            if is_channel(d, row, across, a, b) {
                assert forall|p: int| #![trigger line_index(row, p, across)] a <= p < b implies {
                    &&& water_at(c, row, p, across)
                    &&& water_at(c, row, p, across - 1)
                    &&& water_at(c, row, p, across + 1)
                } by {
                    assert(water_at(d, row, p, across));
                    assert(water_at(d, row, p, across - 1));
                    assert(water_at(d, row, p, across + 1));
                }
            }
        }
    }
    if spanned(c, row, along, across) {
        let (a, b) = choose|a: int, b: int|
            a <= along < b && #[trigger] is_channel(c, row, across, a, b);
        assert(is_channel(d, row, across, a, b));
    }
    if spanned(d, row, along, across) {
        let (a, b) = choose|a: int, b: int|
            a <= along < b && #[trigger] is_channel(d, row, across, a, b);
        assert(is_channel(c, row, across, a, b));
    }
}

/// Only the longest run of water around a tile can be its channel.
proof fn lemma_run(cells: Seq<Cell>, row: bool, across: int, start: int, end: int, p: int)
    requires
        0 <= start <= p < end <= CHUNK,
        forall|q: int| start <= q < end ==> #[trigger] water_at(cells, row, q, across),
        start > 0 ==> cells[line_index(row, start - 1, across)].tile == Tile::Grass,
        end < CHUNK ==> cells[line_index(row, end, across)].tile == Tile::Grass,
    ensures
        spanned(cells, row, p, across) == is_channel(cells, row, across, start, end),
{
    if spanned(cells, row, p, across) {
        let (a, b) = choose|a: int, b: int|
            a <= p < b && #[trigger] is_channel(cells, row, across, a, b);
        if a < start {
            assert(line_index(row, start - 1, across) == line_index(row, start - 1, across));
            assert(water_at(cells, row, start - 1, across));
        }
        if a > start {
            assert(water_at(cells, row, a - 1, across));
        }
        if b > end {
            assert(line_index(row, end, across) == line_index(row, end, across));
            assert(water_at(cells, row, end, across));
        }
        if b < end {
            assert(water_at(cells, row, b, across));
        }
    }
}

/// Is the run of water from `start` up to `end` a channel?
fn run_is_channel(chunk: &Chunk, row: bool, across: i32, start: i32, end: i32) -> (r: bool)
    requires
        chunk.wf(),
        0 <= across < CHUNK,
        0 <= start < end <= CHUNK,
        forall|q: int| start <= q < end ==> #[trigger] water_at(chunk@, row, q, across as int),
        start > 0 ==> chunk@[line_index(row, start - 1, across as int)].tile == Tile::Grass,
        end < CHUNK ==> chunk@[line_index(row, end as int, across as int)].tile == Tile::Grass,
    ensures
        r == is_channel(chunk@, row, across as int, start as int, end as int),
{
    if start == 0 || end == CHUNK || end - start != BRIDGE_GAP {
        return false;
    }
    assert(water_at(chunk@, row, start as int, across as int));
    if !tile_is_water(chunk, row, start, across - 1) || !tile_is_water(
        chunk,
        row,
        start,
        across + 1,
    ) {
        assert(line_index(row, start as int, across as int) == line_index(
            row,
            start as int,
            across as int,
        ));
        return false;
    }
    true
}

/// Bridge the channels along one line.
fn span_line(chunk: &mut Chunk, row: bool, across: i32)
    requires
        old(chunk).wf(),
        0 <= across < CHUNK,
    ensures
        final(chunk).wf(),
        forall|i: int|
            0 <= i < CHUNK_TILES ==> #[trigger] final(chunk)@[i] == if across_of(row, i) == across {
                spanned_cell(old(chunk)@, row, i)
            } else {
                old(chunk)@[i]
            },
{
    let ghost cells = chunk@;
    let mut along: i32 = 0;
    while along < CHUNK
        invariant
            chunk.wf(),
            cells.len() == CHUNK_TILES,
            0 <= across < CHUNK,
            0 <= along <= CHUNK,
            0 < along < CHUNK && cells[line_index(row, along as int, across as int)].tile
                == Tile::Water ==> cells[line_index(row, along - 1, across as int)].tile
                == Tile::Grass,
            forall|i: int|
                0 <= i < CHUNK_TILES ==> #[trigger] chunk@[i] == if across_of(row, i) == across
                    && along_of(row, i) < along {
                    spanned_cell(cells, row, i)
                } else {
                    cells[i]
                },
        decreases CHUNK - along,
    {
        let start: i32 = along;
        proof {
            lemma_parts_of_line_index(row, along as int, across as int);
            assert(chunk@[line_index(row, along as int, across as int)].tile == cells[line_index(
                row,
                along as int,
                across as int,
            )].tile);
        }
        if !tile_is_water(chunk, row, along, across) {
            proof {
                let li = line_index(row, along as int, across as int);
                assert(!spanned(cells, row, along as int, across as int)) by {
                    if spanned(cells, row, along as int, across as int) {
                        let (a, b) = choose|a: int, b: int|
                            a <= along < b && #[trigger] is_channel(
                                cells,
                                row,
                                across as int,
                                a,
                                b,
                            );
                        assert(line_index(row, along as int, across as int) == li);
                        assert(water_at(cells, row, along as int, across as int));
                    }
                }
                assert forall|i: int| 0 <= i < CHUNK_TILES implies #[trigger] chunk@[i] == if across_of(
                    row,
                    i,
                ) == across && along_of(row, i) < along + 1 {
                    spanned_cell(cells, row, i)
                } else {
                    cells[i]
                } by {
                    lemma_line_index(row, i);
                }
            }
            along = along + 1;
            continue ;
        }
        while along < CHUNK && tile_is_water(chunk, row, along, across)
            invariant
                chunk.wf(),
                cells.len() == CHUNK_TILES,
                0 <= across < CHUNK,
                0 <= start <= along <= CHUNK,
                forall|i: int|
                    0 <= i < CHUNK_TILES ==> (#[trigger] chunk@[i]).tile == cells[i].tile,
                forall|q: int|
                    start <= q < along ==> #[trigger] water_at(cells, row, q, across as int),
            ensures
                along < CHUNK ==> cells[line_index(row, along as int, across as int)].tile
                    == Tile::Grass,
            decreases CHUNK - along,
        {
            proof {
                lemma_parts_of_line_index(row, along as int, across as int);
                assert(chunk@[line_index(row, along as int, across as int)].tile
                    == cells[line_index(row, along as int, across as int)].tile);
            }
            along = along + 1;
        }
        let ghost before = chunk@;
        proof {
            lemma_channels_same_ground(cells, before, row, start as int, across as int);
            assert forall|p: int, q: int|
                #![trigger water_at(cells, row, p, q)]
                #![trigger water_at(before, row, p, q)]
                water_at(cells, row, p, q) == water_at(before, row, p, q) by {
                if 0 <= p < CHUNK && 0 <= q < CHUNK {
                    lemma_parts_of_line_index(row, p, q);
                    assert(before[line_index(row, p, q)].tile == cells[line_index(row, p, q)].tile);
                }
            }
            if start > 0 {
                lemma_parts_of_line_index(row, start - 1, across as int);
                assert(before[line_index(row, start - 1, across as int)].tile == cells[line_index(
                    row,
                    start - 1,
                    across as int,
                )].tile);
            }
            if along < CHUNK {
                lemma_parts_of_line_index(row, along as int, across as int);
                assert(before[line_index(row, along as int, across as int)].tile
                    == cells[line_index(row, along as int, across as int)].tile);
            }
            lemma_run(cells, row, across as int, start as int, along as int, start as int);
            lemma_run(before, row, across as int, start as int, along as int, start as int);
            assert forall|p: int| start <= p < along implies spanned(cells, row, p, across as int)
                == is_channel(before, row, across as int, start as int, along as int) by {
                lemma_run(cells, row, across as int, start as int, along as int, p);
            }
        }
        if run_is_channel(chunk, row, across, start, along) {
            let mut p: i32 = start;
            while p < along
                invariant
                    chunk.wf(),
                    cells.len() == CHUNK_TILES,
                    before.len() == CHUNK_TILES,
                    0 <= across < CHUNK,
                    0 <= start <= p <= along <= CHUNK,
                    forall|q: int|
                        start <= q < along ==> #[trigger] spanned(cells, row, q, across as int),
                    forall|i: int|
                        0 <= i < CHUNK_TILES ==> #[trigger] before[i] == if across_of(row, i)
                            == across && along_of(row, i) < start {
                            spanned_cell(cells, row, i)
                        } else {
                            cells[i]
                        },
                    forall|i: int|
                        0 <= i < CHUNK_TILES ==> #[trigger] chunk@[i] == if across_of(row, i)
                            == across && along_of(row, i) < p {
                            spanned_cell(cells, row, i)
                        } else {
                            cells[i]
                        },
                decreases along - p,
            {
                let i: usize = line_place(row, p, across);
                let mut c: Cell = chunk.cell(i);
                c.bridge = true;
                let ghost prev = chunk@;
                chunk.set_cell(i, c);
                proof {
                    lemma_parts_of_line_index(row, p as int, across as int);
                    assert(spanned(cells, row, p as int, across as int));
                    assert(prev[i as int] == cells[i as int]);
                    assert forall|j: int| 0 <= j < CHUNK_TILES implies #[trigger] chunk@[j]
                        == if across_of(row, j) == across && along_of(row, j) < p + 1 {
                        spanned_cell(cells, row, j)
                    } else {
                        cells[j]
                    } by {
                        lemma_line_index(row, j);
                        assert(prev[j] == if across_of(row, j) == across && along_of(row, j) < p {
                            spanned_cell(cells, row, j)
                        } else {
                            cells[j]
                        });
                    }
                }
                p = p + 1;
            }
        } else {
            proof {
                assert forall|i: int| 0 <= i < CHUNK_TILES implies #[trigger] chunk@[i]
                    == if across_of(row, i) == across && along_of(row, i) < along {
                    spanned_cell(cells, row, i)
                } else {
                    cells[i]
                } by {
                    lemma_line_index(row, i);
                    if across_of(row, i) == across && start <= along_of(row, i) < along {
                        assert(!spanned(cells, row, along_of(row, i), across as int));
                    }
                }
            }
        }
    }
    proof {
        assert forall|i: int| 0 <= i < CHUNK_TILES implies #[trigger] chunk@[i] == if across_of(
            row,
            i,
        ) == across {
            spanned_cell(cells, row, i)
        } else {
            cells[i]
        } by {
            lemma_line_index(row, i);
        }
    }
}

/// Bridge single-tile water channels bounded by grass, within this chunk only.
///
/// To avoid littering the coastline with pointless bridges over shallow notches
/// (where the same landmass wraps around the gap), a run is only bridged when it
/// is a genuine channel: the water must continue *perpendicular* to the span, so
/// it can't simply be walked around.
pub fn span_bridges(chunk: &mut Chunk)
    requires
        old(chunk).wf(),
    ensures
        final(chunk).wf(),
        final(chunk)@ == bridged(old(chunk)@),
{
    let ghost cells = chunk@;
    span_lines(chunk, true);
    let ghost mid = chunk@;
    span_lines(chunk, false);
    proof {
        assert forall|i: int| 0 <= i < CHUNK_TILES implies #[trigger] chunk@[i] == bridged(
            cells,
        )[i] by {
            lemma_line_index(false, i);
            lemma_channels_same_ground(
                cells,
                mid,
                false,
                along_of(false, i),
                across_of(false, i),
            );
        }
        assert(chunk@ =~= bridged(cells));
    }
}

/// Bridge the channels along every row, or along every column.
fn span_lines(chunk: &mut Chunk, row: bool)
    requires
        old(chunk).wf(),
    ensures
        final(chunk).wf(),
        final(chunk)@ == lines_bridged(old(chunk)@, row),
{
    let ghost cells = chunk@;
    let mut across: i32 = 0;
    while across < CHUNK
        invariant
            chunk.wf(),
            cells.len() == CHUNK_TILES,
            0 <= across <= CHUNK,
            forall|i: int|
                0 <= i < CHUNK_TILES ==> #[trigger] chunk@[i] == if across_of(row, i) < across {
                    spanned_cell(cells, row, i)
                } else {
                    cells[i]
                },
        decreases CHUNK - across,
    {
        let ghost before = chunk@;
        span_line(chunk, row, across);
        proof {
            assert forall|i: int| 0 <= i < CHUNK_TILES implies #[trigger] chunk@[i] == if across_of(
                row,
                i,
            ) < across + 1 {
                spanned_cell(cells, row, i)
            } else {
                cells[i]
            } by {
                assert(before[i] == if across_of(row, i) < across {
                    spanned_cell(cells, row, i)
                } else {
                    cells[i]
                });
                if across_of(row, i) == across {
                    lemma_channels_same_ground(
                        cells,
                        before,
                        row,
                        along_of(row, i),
                        across as int,
                    );
                }
            }
        }
        across = across + 1;
    }
    proof {
        assert forall|i: int| 0 <= i < CHUNK_TILES implies #[trigger] chunk@[i] == lines_bridged(
            cells,
            row,
        )[i] by {
            lemma_line_index(row, i);
        }
        assert(chunk@ =~= lines_bridged(cells, row));
    }
}

/// Bridges that come with the land stand on water that is a single tile wide, from
/// grass to grass; and nothing grows in water.
pub proof fn law_natural_bridges(seed: i32, cx: i32, cy: i32, i: int)
    requires
        0 <= i < CHUNK_TILES,
    ensures
        ({
            let ground = ground_cells(seed, cx, cy);
            let c = chunk_spec(seed, cx, cy)[i];
            &&& c.bridge ==> c.tile == Tile::Water && (spanned(
                ground,
                true,
                i % CHUNK as int,
                i / CHUNK as int,
            ) || spanned(ground, false, i / CHUNK as int, i % CHUNK as int))
            &&& c.tile == Tile::Water ==> c.node is None
            &&& !c.house && !c.enemy_house && !c.cave && c.wall is None && c.hut is None
        }),
{
    let ground = ground_cells(seed, cx, cy);
    let x = i % CHUNK as int;
    let y = i / CHUNK as int;
    assert(!ground[i].bridge);
    if spanned(ground, true, x, y) {
        let (a, b) = choose|a: int, b: int|
            a <= x < b && #[trigger] is_channel(ground, true, y, a, b);
        assert(line_index(true, x, y) == i);
        assert(water_at(ground, true, x, y));
    }
    if spanned(ground, false, y, x) {
        let (a, b) = choose|a: int, b: int|
            a <= y < b && #[trigger] is_channel(ground, false, x, a, b);
        assert(line_index(false, y, x) == i);
        assert(water_at(ground, false, y, x));
    }
}

} // verus!
