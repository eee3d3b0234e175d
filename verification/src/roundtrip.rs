//! What a save promises: loading what was saved brings the session back as it was, the
//! land, the people and all that is going on.

use vstd::prelude::*;
use crate::chunk::{Cell, Hut, Node, CHUNK_TILES, NO_OWNER};
use crate::game::{CamState, GameView, Sapling};
use crate::save::{
    all_cells_at, bridge_code, bridge_of_spec, bridges_at, cam_at, cam_bytes, cell_at, cells_at,
    chunk_bytes, chunk_pos, chunks_bytes, chunks_pos, clocks_bytes, coords_at, empty_world,
    entities_bytes, entity_at, entity_bytes, f32_at, game_at, has_state, head_bytes, i32_at,
    i32_bytes, intact, intent_bytes, intro_bytes, layer_bytes, layer_start, layers_bytes, mind_at,
    mind_bytes, mind_pos, minds_bytes, minds_fit, minds_start, mode_code, mode_of_spec,
    modes_bytes, numbers_bytes, piece, rally_at, rally_bytes, records_bytes, records_pos, rest_at,
    resumed, sapling_at, sapling_bytes, saplings_bytes, saplings_pos, save_bytes, session_bytes,
    session_end, session_fits, session_records, spot_at, spot_bytes, state_bytes, state_pos,
    steps_countable, tile_at, tile_bytes, tiles_bytes, title_bytes, titled, u32_at, u32_bytes,
    u64_at, u64_bytes, width, zeros, CHUNK_LEN, ENTITY_LEN,
};
use crate::unit::EntityView;
use crate::vec2::{Coord, Vec2};
use crate::world::{tiles_with, Layer, WorldView};

verus! {

/// A unit without what it was about.
pub open spec fn at_rest(e: EntityView) -> EntityView {
    EntityView::idle(e.faction, e.job, e.pos, e.hp, e.max_hp, e.facing, e.anim)
}

/// A tile as a save keeps it: no more than 255 units in a node, and no wall or
/// hut that is nobody's.
pub open spec fn saved_cell(c: Cell) -> Cell {
    Cell {
        node: match c.node {
            Some(n) => Some(
                Node {
                    kind: n.kind,
                    amount: if n.amount < 255 {
                        n.amount
                    } else {
                        255
                    },
                },
            ),
            None => None,
        },
        wall: if c.wall is Some && c.wall->0.owner == NO_OWNER {
            None
        } else {
            c.wall
        },
        hut: if c.hut is Some && c.hut->0.owner == NO_OWNER {
            None
        } else {
            c.hut
        },
        ..c
    }
}

pub open spec fn saved_chunk(cells: Seq<Cell>) -> Seq<Cell> {
    Seq::new(cells.len(), |j: int| saved_cell(cells[j]))
}

pub open spec fn saved_cells(cells: Seq<Seq<Cell>>) -> Seq<Seq<Cell>> {
    Seq::new(cells.len(), |k: int| saved_chunk(cells[k]))
}

/// The game that comes back: all as it was, but for what a save cannot keep of a tile,
/// and with the lists of buildings read off the land.
pub open spec fn reloaded(g: GameView) -> GameView {
    let coords = g.world.coords;
    let cells = saved_cells(g.world.cells);
    GameView {
        world: WorldView {
            seed: g.world.seed,
            coords,
            cells,
            enemy_house_tiles: tiles_with(coords, cells, Layer::EnemyHouse),
        },
        player_house_tiles: tiles_with(coords, cells, Layer::House),
        cave_tiles: tiles_with(coords, cells, Layer::Cave),
        hut_tiles: tiles_with(coords, cells, Layer::Hut),
        ..g
    }
}

/// The game that comes back of a save without a session: everyone is at rest, and nothing
/// is under way.
pub open spec fn rested(g: GameView) -> GameView {
    let back = reloaded(g);
    resumed(
        back.world,
        back.player_house_tiles,
        back.cave_tiles,
        back.hut_tiles,
        Seq::new(g.entities.len(), |i: int| at_rest(g.entities[i])),
        g.player_bridges,
        (g.wood, g.stone),
        (g.enemies_defeated, g.units_lost),
        bridge_of_spec(bridge_code(g.build_mode)),
        g.priority,
        g.gather_priority,
    )
}

/// The game that comes back of a save. A session of more than 2^32 records is not kept.
pub open spec fn brought_back(g: GameView) -> GameView {
    if session_fits(g) {
        reloaded(g)
    } else {
        rested(g)
    }
}

/// The counts fit in the file.
pub open spec fn countable(g: GameView) -> bool {
    &&& g.entities.len() <= u32::MAX
    &&& g.player_bridges.len() <= u32::MAX
    &&& g.world.coords.len() <= u32::MAX
}

/// The list of bridges, written without a session, spells the title of one.
pub open spec fn spells_title(bridges: Seq<Coord>) -> bool {
    bridges.len() >= 3 && tile_bytes(bridges[0]) + tile_bytes(bridges[1]) == title_bytes()
}

/// What is written can be counted, and not be taken for what it is not.
pub open spec fn keepable(g: GameView) -> bool {
    countable(g) && (session_fits(g) || !spells_title(g.player_bridges))
}

/// How many eight-byte records are written.
spec fn record_count(g: GameView) -> int {
    if session_fits(g) {
        session_records(g) + g.player_bridges.len()
    } else {
        g.player_bridges.len() as int
    }
}

/// The bytes stand at that place.
spec fn holds_at(d: Seq<u8>, p: int, s: Seq<u8>) -> bool {
    &&& 0 <= p
    &&& p + s.len() <= d.len()
    &&& forall|i: int| 0 <= i < s.len() ==> d[p + i] == #[trigger] s[i]
}

proof fn lemma_split(d: Seq<u8>, p: int, a: Seq<u8>, b: Seq<u8>)
    requires
        holds_at(d, p, a + b),
    ensures
        holds_at(d, p, a),
        holds_at(d, p + a.len(), b),
{
    assert forall|i: int| 0 <= i < a.len() implies d[p + i] == #[trigger] a[i] by {
        assert((a + b)[i] == a[i]);
    }
    assert forall|i: int| 0 <= i < b.len() implies d[p + a.len() + i] == #[trigger] b[i] by {
        assert((a + b)[a.len() + i] == b[i]);
    }
}

proof fn lemma_u32(d: Seq<u8>, p: int, v: u32)
    requires
        holds_at(d, p, u32_bytes(v)),
    ensures
        u32_at(d, p) == v,
{
    let s = u32_bytes(v);
    assert(d[p + 0] == s[0]);
    assert(d[p + 1] == s[1]);
    assert(d[p + 2] == s[2]);
    assert(d[p + 3] == s[3]);
}

/// A number that `wi32` wrote with its sign, `Reader::i32` reads back as it was, wherever
/// it stands.
pub proof fn law_i32_reads_back(front: Seq<u8>, v: i32, back: Seq<u8>)
    ensures
        i32_at(front + i32_bytes(v) + back, front.len() as int) == v,
        i32_bytes(v).len() == 4,
{
    let d = front + i32_bytes(v) + back;
    assert(holds_at(d, 0, d));
    lemma_split(d, 0, front + i32_bytes(v), back);
    lemma_split(d, 0, front, i32_bytes(v));
    lemma_u32(d, front.len() as int, crate::save::unsigned(v));
}

proof fn lemma_tile(d: Seq<u8>, p: int, t: Coord)
    requires
        holds_at(d, p, tile_bytes(t)),
    ensures
        tile_at(d, p) == t,
        tile_bytes(t).len() == 8,
{
    lemma_split(d, p, i32_bytes(t.0), i32_bytes(t.1));
    lemma_u32(d, p, crate::save::unsigned(t.0));
    lemma_u32(d, p + 4, crate::save::unsigned(t.1));
}

proof fn lemma_entity(d: Seq<u8>, p: int, e: EntityView)
    requires
        holds_at(d, p, entity_bytes(e)),
    ensures
        entity_at(d, p) == at_rest(e),
        entity_bytes(e).len() == 20,
{
    let a = seq![crate::save::faction_code(e.faction), crate::save::job_code(e.job)];
    let b = seq![crate::save::dir_code(e.facing), crate::save::anim_code(e.anim)];
    let x = u32_bytes(e.pos.x.bits);
    let y = u32_bytes(e.pos.y.bits);
    let h = u32_bytes(e.hp.bits);
    let m = u32_bytes(e.max_hp.bits);
    lemma_split(d, p, a + x + y + h + m, b);
    lemma_split(d, p, a + x + y + h, m);
    lemma_split(d, p, a + x + y, h);
    lemma_split(d, p, a + x, y);
    lemma_split(d, p, a, x);
    lemma_u32(d, p + 2, e.pos.x.bits);
    lemma_u32(d, p + 6, e.pos.y.bits);
    lemma_u32(d, p + 10, e.hp.bits);
    lemma_u32(d, p + 14, e.max_hp.bits);
    assert(d[p + 0] == a[0]);
    assert(d[p + 1] == a[1]);
    assert(d[p + 18 + 0] == b[0]);
    assert(d[p + 18 + 1] == b[1]);
}

proof fn lemma_entities(d: Seq<u8>, p: int, es: Seq<EntityView>, n: int)
    requires
        0 <= n <= es.len(),
        holds_at(d, p, entities_bytes(es, n)),
    ensures
        entities_bytes(es, n).len() == 20 * n,
        forall|i: int| 0 <= i < n ==> entity_at(d, p + i * 20) == at_rest(#[trigger] es[i]),
    decreases n,
{
    if n > 0 {
        lemma_split(d, p, entities_bytes(es, n - 1), entity_bytes(es[n - 1]));
        lemma_entities(d, p, es, n - 1);
        lemma_entity(d, p + 20 * (n - 1), es[n - 1]);
    }
}

proof fn lemma_tiles(d: Seq<u8>, p: int, ts: Seq<Coord>, n: int)
    requires
        0 <= n <= ts.len(),
        holds_at(d, p, tiles_bytes(ts, n)),
    ensures
        tiles_bytes(ts, n).len() == 8 * n,
        forall|i: int| 0 <= i < n ==> tile_at(d, p + i * 8) == #[trigger] ts[i],
    decreases n,
{
    if n > 0 {
        lemma_split(d, p, tiles_bytes(ts, n - 1), tile_bytes(ts[n - 1]));
        lemma_tiles(d, p, ts, n - 1);
        lemma_tile(d, p + 8 * (n - 1), ts[n - 1]);
    }
}

proof fn lemma_piece_len(c: Cell, layer: int)
    requires
        0 <= layer < 8,
    ensures
        piece(c, layer).len() == width(layer),
{
}

/// Every tile of a layer stands at its place.
spec fn layer_holds(d: Seq<u8>, p: int, cells: Seq<Cell>, layer: int, n: int) -> bool {
    forall|j: int|
        0 <= j < n ==> holds_at(d, p + j * width(layer), #[trigger] piece(cells[j], layer))
}

proof fn lemma_layer(d: Seq<u8>, p: int, cells: Seq<Cell>, layer: int, n: int)
    requires
        0 <= layer < 8,
        0 <= n,
        holds_at(d, p, layer_bytes(cells, layer, n)),
    ensures
        layer_bytes(cells, layer, n).len() == n * width(layer),
        layer_holds(d, p, cells, layer, n),
    decreases n,
{
    if n > 0 {
        let front = layer_bytes(cells, layer, n - 1);
        lemma_split(d, p, front, piece(cells[n - 1], layer));
        lemma_layer(d, p, cells, layer, n - 1);
        lemma_piece_len(cells[n - 1], layer);
        let w = width(layer);
        assert((n - 1) * w + w == n * w) by (nonlinear_arith);
    }
}

proof fn lemma_layers(d: Seq<u8>, p: int, cells: Seq<Cell>, k: int)
    requires
        0 <= k <= 8,
        holds_at(d, p, layers_bytes(cells, k)),
    ensures
        layers_bytes(cells, k).len() == layer_start(k),
        forall|l: int|
            0 <= l < k ==> #[trigger] layer_holds(
                d,
                p + layer_start(l),
                cells,
                l,
                CHUNK_TILES as int,
            ),
    decreases k,
{
    if k > 0 {
        lemma_split(
            d,
            p,
            layers_bytes(cells, k - 1),
            layer_bytes(cells, k - 1, CHUNK_TILES as int),
        );
        lemma_layers(d, p, cells, k - 1);
        lemma_layer(d, p + layer_start(k - 1), cells, k - 1, CHUNK_TILES as int);
    }
}

proof fn lemma_cell(d: Seq<u8>, p: int, c: Cell, j: int)
    requires
        0 <= j < CHUNK_TILES,
        holds_at(d, p + j, piece(c, 0)),
        holds_at(d, p + 1024 + j * 2, piece(c, 1)),
        holds_at(d, p + 3072 + j, piece(c, 2)),
        holds_at(d, p + 4096 + j, piece(c, 3)),
        holds_at(d, p + 5120 + j, piece(c, 4)),
        holds_at(d, p + 6144 + j, piece(c, 5)),
        holds_at(d, p + 7168 + j * 5, piece(c, 6)),
        holds_at(d, p + 12288 + j * 6, piece(c, 7)),
    ensures
        cell_at(d, p, j) == saved_cell(c),
{
    reveal(cell_at);
    assert(d[p + j + 0] == piece(c, 0)[0]);
    assert(d[p + 1024 + j * 2 + 0] == piece(c, 1)[0]);
    assert(d[p + 1024 + j * 2 + 1] == piece(c, 1)[1]);
    assert(d[p + 3072 + j + 0] == piece(c, 2)[0]);
    assert(d[p + 4096 + j + 0] == piece(c, 3)[0]);
    assert(d[p + 5120 + j + 0] == piece(c, 4)[0]);
    assert(d[p + 6144 + j + 0] == piece(c, 5)[0]);
    let pw = p + 7168 + j * 5;
    let ph = p + 12288 + j * 6;
    let (wo, wh) = match c.wall {
        Some(w) => (w.owner, w.hp.bits),
        None => (NO_OWNER, 0u32),
    };
    lemma_split(d, pw, seq![wo], u32_bytes(wh));
    assert(d[pw + 0] == seq![wo][0]);
    lemma_u32(d, pw + 1, wh);
    let (ho, hh, hn) = match c.hut {
        Some(h) => (h.owner, h.hp.bits, h.occupants),
        None => (NO_OWNER, 0u32, 0u8),
    };
    lemma_split(d, ph, seq![ho] + u32_bytes(hh), seq![hn]);
    lemma_split(d, ph, seq![ho], u32_bytes(hh));
    assert(d[ph + 0] == seq![ho][0]);
    assert(d[ph + 5 + 0] == seq![hn][0]);
    lemma_u32(d, ph + 1, hh);
}

proof fn lemma_chunk(d: Seq<u8>, p: int, c: Coord, cells: Seq<Cell>)
    requires
        cells.len() == CHUNK_TILES,
        holds_at(d, p, chunk_bytes(c, cells)),
    ensures
        chunk_bytes(c, cells).len() == CHUNK_LEN,
        tile_at(d, p) == c,
        cells_at(d, p) == saved_chunk(cells),
{
    lemma_split(d, p, tile_bytes(c), layers_bytes(cells, 8));
    lemma_tile(d, p, c);
    let q = p + 8;
    lemma_layers(d, q, cells, 8);
    let n = CHUNK_TILES as int;
    assert(layer_holds(d, q + layer_start(0), cells, 0, n));
    assert(layer_holds(d, q + layer_start(1), cells, 1, n));
    assert(layer_holds(d, q + layer_start(2), cells, 2, n));
    assert(layer_holds(d, q + layer_start(3), cells, 3, n));
    assert(layer_holds(d, q + layer_start(4), cells, 4, n));
    assert(layer_holds(d, q + layer_start(5), cells, 5, n));
    assert(layer_holds(d, q + layer_start(6), cells, 6, n));
    assert(layer_holds(d, q + layer_start(7), cells, 7, n));
    assert forall|j: int| 0 <= j < n implies cell_at(d, q, j) == saved_cell(
        #[trigger] cells[j],
    ) by {
        let x = cells[j];
        assert(holds_at(d, q + 0 + j * width(0), piece(x, 0)));
        assert(holds_at(d, q + 1024 + j * width(1), piece(x, 1)));
        assert(holds_at(d, q + 3072 + j * width(2), piece(x, 2)));
        assert(holds_at(d, q + 4096 + j * width(3), piece(x, 3)));
        assert(holds_at(d, q + 5120 + j * width(4), piece(x, 4)));
        assert(holds_at(d, q + 6144 + j * width(5), piece(x, 5)));
        assert(holds_at(d, q + 7168 + j * width(6), piece(x, 6)));
        assert(holds_at(d, q + 12288 + j * width(7), piece(x, 7)));
        lemma_cell(d, q, x, j);
    }
    reveal(cells_at);
    assert(cells_at(d, p) =~= saved_chunk(cells)) by {
        assert forall|j: int| 0 <= j < n implies cells_at(d, p)[j] == saved_chunk(cells)[j] by {
            assert(cell_at(d, q, j) == saved_cell(cells[j]));
        }
    }
}

proof fn lemma_chunks(d: Seq<u8>, p: int, coords: Seq<Coord>, cells: Seq<Seq<Cell>>, n: int)
    requires
        0 <= n <= coords.len(),
        cells.len() == coords.len(),
        forall|k: int| 0 <= k < cells.len() ==> (#[trigger] cells[k]).len() == CHUNK_TILES,
        holds_at(d, p, chunks_bytes(coords, cells, n)),
    ensures
        chunks_bytes(coords, cells, n).len() == n * CHUNK_LEN,
        forall|k: int|
            0 <= k < n ==> tile_at(d, p + k * CHUNK_LEN) == #[trigger] coords[k] && cells_at(
                d,
                p + k * CHUNK_LEN,
            ) == saved_chunk(cells[k]),
    decreases n,
{
    if n > 0 {
        lemma_split(
            d,
            p,
            chunks_bytes(coords, cells, n - 1),
            chunk_bytes(coords[n - 1], cells[n - 1]),
        );
        lemma_chunks(d, p, coords, cells, n - 1);
        lemma_chunk(d, p + (n - 1) * CHUNK_LEN, coords[n - 1], cells[n - 1]);
    }
}

/// Chunks with coordinates of their own are all kept, in order.
proof fn lemma_with_chunks(seed: i32, coords: Seq<Coord>, cells: Seq<Seq<Cell>>)
    requires
        coords.no_duplicates(),
        cells.len() == coords.len(),
    ensures
        empty_world(seed).with_chunks(coords, cells) == (WorldView {
            coords,
            cells,
            ..empty_world(seed)
        }),
    decreases coords.len(),
{
    if coords.len() > 0 {
        let front = coords.drop_last();
        lemma_with_chunks(seed, front, cells.drop_last());
        assert(!front.contains(coords.last())) by {
            if front.contains(coords.last()) {
                let i = front.index_of(coords.last());
                assert(coords[i] == coords[coords.len() - 1]);
            }
        }
        assert(front.push(coords.last()) =~= coords);
        assert(cells.drop_last().push(cells.last()) =~= cells);
    } else {
        assert(empty_world(seed).with_chunks(coords, cells) =~= (WorldView {
            coords,
            cells,
            ..empty_world(seed)
        }));
    }
}

proof fn lemma_head(d: Seq<u8>, g: GameView, cam: CamState)
    requires
        holds_at(d, 0, head_bytes(g, cam)),
    ensures
        head_bytes(g, cam).len() == 40,
        d.take(5) == intro_bytes(),
        i32_at(d, 5) == g.world.seed,
        u32_at(d, 9) == g.wood,
        u32_at(d, 13) == g.stone,
        u32_at(d, 17) == g.enemies_defeated,
        u32_at(d, 21) == g.units_lost,
        d[25] == bridge_code(g.build_mode),
        d[26] == crate::save::priority_code(g.priority),
        d[27] == crate::save::gather_code(g.gather_priority),
        cam_at(d) == cam,
{
    let intro = intro_bytes();
    let numbers = numbers_bytes(g);
    let modes = modes_bytes(g);
    lemma_split(d, 0, intro + numbers + modes, cam_bytes(cam));
    lemma_split(d, 0, intro + numbers, modes);
    lemma_split(d, 0, intro, numbers);
    assert(d.take(5) =~= intro) by {
        assert forall|i: int| 0 <= i < 5 implies d.take(5)[i] == intro[i] by {
            assert(d[0 + i] == intro[i]);
        }
    }
    let s = i32_bytes(g.world.seed);
    let a = u32_bytes(g.wood);
    let b = u32_bytes(g.stone);
    let c = u32_bytes(g.enemies_defeated);
    let e = u32_bytes(g.units_lost);
    lemma_split(d, 5, s + a + b + c, e);
    lemma_split(d, 5, s + a + b, c);
    lemma_split(d, 5, s + a, b);
    lemma_split(d, 5, s, a);
    lemma_u32(d, 5, crate::save::unsigned(g.world.seed));
    lemma_u32(d, 9, g.wood);
    lemma_u32(d, 13, g.stone);
    lemma_u32(d, 17, g.enemies_defeated);
    lemma_u32(d, 21, g.units_lost);
    assert(d[25] == modes[0]);
    assert(d[26] == modes[1]);
    assert(d[27] == modes[2]);
    let x = u32_bytes(cam.cx.bits);
    let y = u32_bytes(cam.cy.bits);
    let z = u32_bytes(cam.view_height.bits);
    lemma_split(d, 28, x + y, z);
    lemma_split(d, 28, x, y);
    lemma_u32(d, 28, cam.cx.bits);
    lemma_u32(d, 32, cam.cy.bits);
    lemma_u32(d, 36, cam.view_height.bits);
}

proof fn lemma_six(a: Seq<u8>, b: Seq<u8>, c: Seq<u8>, d: Seq<u8>, e: Seq<u8>, f: Seq<u8>)
    ensures
        ({
            let all = a + b + c + d + e + f;
            &&& holds_at(all, 0, a)
            &&& holds_at(all, a.len() as int, b)
            &&& holds_at(all, (a.len() + b.len()) as int, c)
            &&& holds_at(all, (a.len() + b.len() + c.len()) as int, d)
            &&& holds_at(all, (a.len() + b.len() + c.len() + d.len()) as int, e)
            &&& holds_at(all, (a.len() + b.len() + c.len() + d.len() + e.len()) as int, f)
            &&& all.len() == a.len() + b.len() + c.len() + d.len() + e.len() + f.len()
        }),
{
    let all = a + b + c + d + e + f;
    assert(holds_at(all, 0, all));
    lemma_split(all, 0, a + b + c + d + e, f);
    lemma_split(all, 0, a + b + c + d, e);
    lemma_split(all, 0, a + b + c, d);
    lemma_split(all, 0, a + b, c);
    lemma_split(all, 0, a, b);
}

proof fn lemma_session(d: Seq<u8>, p: int, g: GameView)
    requires
        session_fits(g),
        holds_at(d, p, session_bytes(g)),
    ensures
        session_bytes(g).len() == 8 * session_records(g),
        d.subrange(p, p + 16) == title_bytes(),
        u32_at(d, p + 16) == session_records(g),
        d[p + 20] == mode_code(g.build_mode),
        holds_at(d, p + 24, state_bytes(g)),
        24 + state_bytes(g).len() <= 8 * session_records(g),
{
    let t = title_bytes();
    let n = session_records(g);
    let a = u32_bytes(n as u32);
    let m = mode_code(g.build_mode) as u32;
    let b = u32_bytes(m);
    let state = state_bytes(g);
    let pad = zeros(8 * n - 24 - state.len());
    lemma_split(d, p, t + a + b + state, pad);
    lemma_split(d, p, t + a + b, state);
    lemma_split(d, p, t + a, b);
    lemma_split(d, p, t, a);
    lemma_u32(d, p + 16, n as u32);
    assert(d[p + 20 + 0] == b[0]);
    assert(d.subrange(p, p + 16) =~= t) by {
        assert forall|i: int| 0 <= i < 16 implies d.subrange(p, p + 16)[i] == t[i] by {
            assert(d[p + i] == t[i]);
        }
    }
}

proof fn lemma_records(d: Seq<u8>, p: int, g: GameView)
    requires
        holds_at(d, p, records_bytes(g)),
        g.player_bridges.len() <= u32::MAX,
    ensures
        ({
            let n = g.player_bridges.len() as int;
            let tiles = tiles_bytes(g.player_bridges, n);
            let s = session_records(g);
            &&& records_bytes(g).len() == 4 + 8 * record_count(g)
            &&& u32_at(d, p) == record_count(g)
            &&& session_fits(g) ==> holds_at(d, p + 4, session_bytes(g)) && holds_at(
                d,
                p + 4 + 8 * s,
                tiles,
            )
            &&& !session_fits(g) ==> holds_at(d, p + 4, tiles)
        }),
{
    reveal(records_bytes);
    let n = g.player_bridges.len() as int;
    let tiles = tiles_bytes(g.player_bridges, n);
    let count = u32_bytes(record_count(g) as u32);
    if session_fits(g) {
        let session = session_bytes(g);
        lemma_split(d, p, count + session, tiles);
        lemma_split(d, p, count, session);
        lemma_session(d, p + 4, g);
        lemma_tiles(d, p + 4 + 8 * session_records(g), g.player_bridges, n);
    } else {
        lemma_split(d, p, count, tiles);
        lemma_tiles(d, p + 4, g.player_bridges, n);
    }
    lemma_u32(d, p, record_count(g) as u32);
}

/// Where everything stands in a save.
proof fn lemma_parts(g: GameView, cam: CamState)
    requires
        g.world.wf(),
        countable(g),
    ensures
        ({
            let d = save_bytes(g, cam);
            let en = g.entities.len() as int;
            let cn = g.world.coords.len() as int;
            let rp = 44 + 20 * en;
            let cp = rp + 4 + 8 * record_count(g);
            &&& holds_at(d, 0, head_bytes(g, cam))
            &&& u32_at(d, 40) == en
            &&& holds_at(d, 44, entities_bytes(g.entities, en))
            &&& records_pos(d) == rp
            &&& holds_at(d, rp, records_bytes(g))
            &&& u32_at(d, rp) == record_count(g)
            &&& chunks_pos(d) == cp
            &&& u32_at(d, cp) == cn
            &&& holds_at(d, cp + 4, chunks_bytes(g.world.coords, g.world.cells, cn))
            &&& d.len() == cp + 4 + cn * CHUNK_LEN
        }),
{
    let d = save_bytes(g, cam);
    let en = g.entities.len() as int;
    let cn = g.world.coords.len() as int;
    let head = head_bytes(g, cam);
    let es = entities_bytes(g.entities, en);
    let rs = records_bytes(g);
    let cs = chunks_bytes(g.world.coords, g.world.cells, cn);
    lemma_six(head, u32_bytes(en as u32), es, rs, u32_bytes(cn as u32), cs);
    lemma_head(d, g, cam);
    assert(u32_bytes(en as u32).len() == 4);
    assert(u32_bytes(cn as u32).len() == 4);
    lemma_u32(d, 40, en as u32);
    lemma_entities(d, 44, g.entities, en);
    let rp = 44 + 20 * en;
    lemma_records(d, rp, g);
    let cp = rp + 4 + 8 * record_count(g);
    lemma_u32(d, cp, cn as u32);
    lemma_chunks(d, cp + 4, g.world.coords, g.world.cells, cn);
}

proof fn lemma_chunks_read(d: Seq<u8>, cp: int, coords: Seq<Coord>, cells: Seq<Seq<Cell>>)
    requires
        chunks_pos(d) == cp,
        u32_at(d, cp) == coords.len(),
        holds_at(d, cp + 4, chunks_bytes(coords, cells, coords.len() as int)),
        cells.len() == coords.len(),
        forall|k: int| 0 <= k < cells.len() ==> (#[trigger] cells[k]).len() == CHUNK_TILES,
    ensures
        coords_at(d) == coords,
        all_cells_at(d) == saved_cells(cells),
{
    lemma_chunks(d, cp + 4, coords, cells, coords.len() as int);
    assert(coords_at(d) =~= coords) by {
        assert forall|k: int| 0 <= k < coords.len() implies coords_at(d)[k] == coords[k] by {
            assert(tile_at(d, cp + 4 + k * CHUNK_LEN) == coords[k]);
        }
    }
    assert(all_cells_at(d) =~= saved_cells(cells)) by {
        assert forall|k: int| 0 <= k < cells.len() implies all_cells_at(d)[k] == saved_cells(
            cells,
        )[k] by {
            let c = coords[k];
            assert(cells_at(d, cp + 4 + k * CHUNK_LEN) == saved_chunk(cells[k]));
        }
    }
}

proof fn lemma_chunks_back(g: GameView, cam: CamState)
    requires
        g.world.wf(),
        countable(g),
    ensures
        coords_at(save_bytes(g, cam)) == g.world.coords,
        all_cells_at(save_bytes(g, cam)) == saved_cells(g.world.cells),
{
    lemma_parts(g, cam);
    let d = save_bytes(g, cam);
    lemma_chunks_read(d, chunks_pos(d), g.world.coords, g.world.cells);
}

proof fn lemma_rally(d: Seq<u8>, p: int, rally: Option<Vec2>)
    requires
        holds_at(d, p, rally_bytes(rally)),
    ensures
        rally_bytes(rally).len() == 9,
        (d[p] == 1) == (rally is Some),
        rally matches Some(r) ==> u32_at(d, p + 1) == r.x.bits && u32_at(d, p + 5) == r.y.bits,
{
    let (on, x, y) = match rally {
        None => (0u8, 0u32, 0u32),
        Some(r) => (1u8, r.x.bits, r.y.bits),
    };
    lemma_split(d, p, seq![on] + u32_bytes(x), u32_bytes(y));
    lemma_split(d, p, seq![on], u32_bytes(x));
    assert(d[p + 0] == seq![on][0]);
    lemma_u32(d, p + 1, x);
    lemma_u32(d, p + 5, y);
}

proof fn lemma_saplings(d: Seq<u8>, p: int, s: Seq<Sapling>, n: int)
    requires
        0 <= n <= s.len(),
        holds_at(d, p, saplings_bytes(s, n)),
    ensures
        saplings_bytes(s, n).len() == 12 * n,
        forall|i: int| 0 <= i < n ==> sapling_at(d, p + i * 12) == #[trigger] s[i],
    decreases n,
{
    if n > 0 {
        let last = s[n - 1];
        lemma_split(d, p, saplings_bytes(s, n - 1), sapling_bytes(last));
        lemma_saplings(d, p, s, n - 1);
        let q = p + 12 * (n - 1);
        lemma_split(d, q, tile_bytes(last.tile), u32_bytes(last.grow.bits));
        lemma_tile(d, q, last.tile);
        lemma_u32(d, q + 8, last.grow.bits);
    }
}

proof fn lemma_spot(d: Seq<u8>, p: int, t: Option<Coord>)
    requires
        holds_at(d, p, spot_bytes(t)),
    ensures
        spot_bytes(t).len() == 9,
        spot_at(d, p) == t,
{
    match t {
        None => {
            let front = seq![0u8];
            lemma_split(d, p, front + u32_bytes(0), u32_bytes(0));
            lemma_split(d, p, front, u32_bytes(0));
            assert(d[p + 0] == front[0]);
        },
        Some(c) => {
            let front = seq![1u8];
            lemma_split(d, p, front, tile_bytes(c));
            assert(d[p + 0] == front[0]);
            lemma_tile(d, p + 1, c);
        },
    }
}

proof fn lemma_intent(d: Seq<u8>, p: int, e: EntityView)
    requires
        holds_at(d, p, intent_bytes(e)),
        steps_countable(e),
    ensures
        intent_bytes(e).len() == 44,
        f32_at(d, p) == e.anim_time,
        f32_at(d, p + 4) == e.harvest_timer,
        f32_at(d, p + 8) == e.repath,
        spot_at(d, p + 12) == e.target_node,
        spot_at(d, p + 21) == e.mine_target,
        spot_at(d, p + 30) == e.build_site,
        (d[p + 39] == 1) == e.sheltered,
        u32_at(d, p + 40) == e.path_cursor,
{
    let a = u32_bytes(e.anim_time.bits);
    let h = u32_bytes(e.harvest_timer.bits);
    let r = u32_bytes(e.repath.bits);
    let t = spot_bytes(e.target_node);
    let m = spot_bytes(e.mine_target);
    let b = spot_bytes(e.build_site);
    let s = seq![crate::save::flag(e.sheltered)];
    let c = u32_bytes(e.path_cursor as u32);
    lemma_split(d, p, a + h + r + t + m + b + s, c);
    lemma_split(d, p, a + h + r + t + m + b, s);
    lemma_split(d, p, a + h + r + t + m, b);
    lemma_split(d, p, a + h + r + t, m);
    lemma_split(d, p, a + h + r, t);
    lemma_split(d, p, a + h, r);
    lemma_split(d, p, a, h);
    lemma_u32(d, p, e.anim_time.bits);
    lemma_u32(d, p + 4, e.harvest_timer.bits);
    lemma_u32(d, p + 8, e.repath.bits);
    lemma_spot(d, p + 12, e.target_node);
    lemma_spot(d, p + 21, e.mine_target);
    lemma_spot(d, p + 30, e.build_site);
    assert(d[p + 39 + 0] == s[0]);
    lemma_u32(d, p + 40, e.path_cursor as u32);
}

proof fn lemma_mind(d: Seq<u8>, p: int, e: EntityView)
    requires
        holds_at(d, p, mind_bytes(e)),
        steps_countable(e),
    ensures
        mind_bytes(e).len() == 48 + 8 * e.path.len(),
        u32_at(d, p + 44) == e.path.len(),
        mind_at(d, p, at_rest(e)) == e,
{
    let n = e.path.len() as int;
    let intent = intent_bytes(e);
    lemma_split(d, p, intent + u32_bytes(n as u32), tiles_bytes(e.path, n));
    lemma_split(d, p, intent, u32_bytes(n as u32));
    lemma_intent(d, p, e);
    lemma_u32(d, p + 44, n as u32);
    lemma_tiles(d, p + 48, e.path, n);
    let back = mind_at(d, p, at_rest(e));
    assert(back.path =~= e.path) by {
        assert forall|i: int| 0 <= i < n implies back.path[i] == e.path[i] by {
            assert(tile_at(d, p + 48 + i * 8) == e.path[i]);
        }
    }
    assert(back =~= e);
}

proof fn lemma_minds(d: Seq<u8>, q: int, es: Seq<EntityView>, n: int, end: int)
    requires
        0 <= n <= es.len(),
        holds_at(d, q, minds_bytes(es, n)),
        q + minds_bytes(es, n).len() <= end,
        forall|i: int| 0 <= i < es.len() ==> steps_countable(#[trigger] es[i]),
    ensures
        mind_pos(d, q, n) == q + minds_bytes(es, n).len(),
        minds_fit(d, q, n, end),
        forall|i: int|
            0 <= i < n ==> mind_at(d, mind_pos(d, q, i), at_rest(#[trigger] es[i])) == es[i],
    decreases n,
{
    if n > 0 {
        let e = es[n - 1];
        let front = minds_bytes(es, n - 1);
        lemma_split(d, q, front, mind_bytes(e));
        assert(minds_bytes(es, n).len() == front.len() + mind_bytes(e).len());
        lemma_minds(d, q, es, n - 1, end);
        lemma_mind(d, q + front.len(), e);
        let p = mind_pos(d, q, n - 1);
        assert(mind_pos(d, q, n) == p + 48 + 8 * u32_at(d, p + 44));
        assert forall|i: int| 0 <= i < n implies mind_at(
            d,
            mind_pos(d, q, i),
            at_rest(#[trigger] es[i]),
        ) == es[i] by {
            if i < n - 1 {
                assert(mind_at(d, mind_pos(d, q, i), at_rest(es[i])) == es[i]);
            }
        }
    }
}

proof fn lemma_clocks(d: Seq<u8>, p: int, g: GameView)
    requires
        holds_at(d, p, clocks_bytes(g)),
    ensures
        clocks_bytes(g).len() == 24,
        f32_at(d, p) == g.enemy_spawn_timer,
        f32_at(d, p + 4) == g.player_spawn_timer,
        u32_at(d, p + 8) == g.player_spawn_cycle,
        u32_at(d, p + 12) == g.enemy_spawn_cycle,
        u64_at(d, p + 16) == g.rng,
{
    let a = u32_bytes(g.enemy_spawn_timer.bits);
    let b = u32_bytes(g.player_spawn_timer.bits);
    let c = u32_bytes(g.player_spawn_cycle);
    let e = u32_bytes(g.enemy_spawn_cycle);
    let low = (g.rng % 0x1_0000_0000) as u32;
    let high = (g.rng / 0x1_0000_0000) as u32;
    lemma_split(d, p, a + b + c + e, u64_bytes(g.rng));
    lemma_split(d, p, a + b + c, e);
    lemma_split(d, p, a + b, c);
    lemma_split(d, p, a, b);
    lemma_split(d, p + 16, u32_bytes(low), u32_bytes(high));
    lemma_u32(d, p, g.enemy_spawn_timer.bits);
    lemma_u32(d, p + 4, g.player_spawn_timer.bits);
    lemma_u32(d, p + 8, g.player_spawn_cycle);
    lemma_u32(d, p + 12, g.enemy_spawn_cycle);
    lemma_u32(d, p + 16, low);
    lemma_u32(d, p + 20, high);
}

proof fn lemma_state(d: Seq<u8>, p: int, g: GameView)
    requires
        holds_at(d, p, state_bytes(g)),
        session_fits(g),
    ensures
        ({
            let n = g.hut_orders.len() as int;
            let m = g.saplings.len() as int;
            let minds = minds_bytes(g.entities, g.entities.len() as int);
            &&& state_bytes(g).len() == 41 + 8 * n + 12 * m + minds.len()
            &&& holds_at(d, p, clocks_bytes(g))
            &&& rally_at(d, p + 24) == g.rally_point
            &&& u32_at(d, p + 33) == n
            &&& holds_at(d, p + 37, tiles_bytes(g.hut_orders, n))
            &&& u32_at(d, p + 37 + 8 * n) == m
            &&& holds_at(d, p + 41 + 8 * n, saplings_bytes(g.saplings, m))
            &&& holds_at(d, p + 41 + 8 * n + 12 * m, minds)
        }),
{
    let n = g.hut_orders.len() as int;
    let m = g.saplings.len() as int;
    let clocks = clocks_bytes(g);
    let rally = rally_bytes(g.rally_point);
    let huts = u32_bytes(n as u32);
    let tiles = tiles_bytes(g.hut_orders, n);
    let trees = u32_bytes(m as u32);
    let young = saplings_bytes(g.saplings, m);
    let minds = minds_bytes(g.entities, g.entities.len() as int);
    reveal(state_bytes);
    let plans = rally + huts + tiles + trees + young;
    lemma_split(d, p, clocks + plans, minds);
    lemma_split(d, p, clocks, plans);
    lemma_clocks(d, p, g);
    let r = p + 24;
    lemma_split(d, r, rally + huts + tiles + trees, young);
    lemma_split(d, r, rally + huts + tiles, trees);
    lemma_split(d, r, rally + huts, tiles);
    lemma_split(d, r, rally, huts);
    lemma_rally(d, r, g.rally_point);
    lemma_u32(d, p + 33, n as u32);
    lemma_tiles(d, p + 37, g.hut_orders, n);
    lemma_u32(d, p + 37 + 8 * n, m as u32);
    lemma_saplings(d, p + 41 + 8 * n, g.saplings, m);
}

/// What is going on can be read from the session.
proof fn lemma_state_read(d: Seq<u8>, g: GameView)
    requires
        session_fits(g),
        u32_at(d, 40) == g.entities.len(),
        holds_at(d, records_pos(d) + 4, session_bytes(g)),
        u32_at(d, records_pos(d)) == record_count(g),
    ensures
        ({
            let p = state_pos(d);
            let q = saplings_pos(d);
            &&& has_state(d)
            &&& d[p - 4] == mode_code(g.build_mode)
            &&& u32_at(d, records_pos(d) + 20) == session_records(g)
            &&& f32_at(d, p) == g.enemy_spawn_timer
            &&& f32_at(d, p + 4) == g.player_spawn_timer
            &&& u32_at(d, p + 8) == g.player_spawn_cycle
            &&& u32_at(d, p + 12) == g.enemy_spawn_cycle
            &&& u64_at(d, p + 16) == g.rng
            &&& rally_at(d, p + 24) == g.rally_point
            &&& Seq::new(u32_at(d, p + 33) as nat, |i: int| tile_at(d, p + 37 + i * 8))
                == g.hut_orders
            &&& Seq::new(u32_at(d, q) as nat, |i: int| sapling_at(d, q + 4 + i * 12)) == g.saplings
            &&& forall|i: int|
                0 <= i < g.entities.len() ==> mind_at(
                    d,
                    mind_pos(d, minds_start(d), i),
                    at_rest(#[trigger] g.entities[i]),
                ) == g.entities[i]
        }),
{
    let p = state_pos(d);
    let q = saplings_pos(d);
    let n = g.hut_orders.len() as int;
    let m = g.saplings.len() as int;
    lemma_session(d, records_pos(d) + 4, g);
    lemma_state(d, p, g);
    lemma_clocks(d, p, g);
    lemma_tiles(d, p + 37, g.hut_orders, n);
    assert(q == p + 37 + 8 * n);
    lemma_saplings(d, q + 4, g.saplings, m);
    lemma_minds(d, minds_start(d), g.entities, g.entities.len() as int, session_end(d));
    let huts = Seq::new(u32_at(d, p + 33) as nat, |i: int| tile_at(d, p + 37 + i * 8));
    assert(huts =~= g.hut_orders) by {
        assert forall|i: int| 0 <= i < n implies huts[i] == g.hut_orders[i] by {
            assert(tile_at(d, p + 37 + i * 8) == g.hut_orders[i]);
        }
    }
    let young = Seq::new(u32_at(d, q) as nat, |i: int| sapling_at(d, q + 4 + i * 12));
    assert(young =~= g.saplings) by {
        assert forall|i: int| 0 <= i < m implies young[i] == g.saplings[i] by {
            assert(sapling_at(d, q + 4 + i * 12) == g.saplings[i]);
        }
    }
}

/// The bridges can be read behind the session.
proof fn lemma_bridges_read(d: Seq<u8>, g: GameView)
    requires
        session_fits(g),
        u32_at(d, records_pos(d)) == record_count(g),
        u32_at(d, records_pos(d) + 20) == session_records(g),
        holds_at(
            d,
            session_end(d),
            tiles_bytes(g.player_bridges, g.player_bridges.len() as int),
        ),
    ensures
        bridges_at(d) == g.player_bridges,
{
    let n = g.player_bridges.len() as int;
    lemma_tiles(d, session_end(d), g.player_bridges, n);
    assert(bridges_at(d) =~= g.player_bridges) by {
        assert forall|i: int| 0 <= i < n implies bridges_at(d)[i] == g.player_bridges[i] by {
            assert(tile_at(d, session_end(d) + i * 8) == g.player_bridges[i]);
        }
    }
}

proof fn lemma_state_back(g: GameView, cam: CamState)
    requires
        g.world.wf(),
        countable(g),
        session_fits(g),
    ensures
        ({
            let d = save_bytes(g, cam);
            &&& has_state(d)
            &&& game_at(d) == (GameView {
                entities: g.entities,
                enemy_spawn_timer: g.enemy_spawn_timer,
                player_spawn_timer: g.player_spawn_timer,
                player_spawn_cycle: g.player_spawn_cycle,
                enemy_spawn_cycle: g.enemy_spawn_cycle,
                rng: g.rng,
                rally_point: g.rally_point,
                hut_orders: g.hut_orders,
                saplings: g.saplings,
                build_mode: g.build_mode,
                player_bridges: g.player_bridges,
                ..rest_at(d)
            })
        }),
{
    let d = save_bytes(g, cam);
    lemma_parts(g, cam);
    lemma_records(d, records_pos(d), g);
    lemma_state_read(d, g);
    lemma_bridges_read(d, g);
    lemma_people_back(g, cam);
    assert(mode_of_spec(mode_code(g.build_mode)) == g.build_mode);
    assert(game_at(d).entities =~= g.entities) by {
        assert forall|i: int| 0 <= i < g.entities.len() implies game_at(d).entities[i]
            == g.entities[i] by {
            assert(rest_at(d).entities[i] == at_rest(g.entities[i]));
            assert(mind_at(d, mind_pos(d, minds_start(d), i), at_rest(g.entities[i]))
                == g.entities[i]);
        }
    }
}

/// Bridges that do not spell the title are not taken for a session.
proof fn lemma_untitled(d: Seq<u8>, g: GameView)
    requires
        !session_fits(g),
        !spells_title(g.player_bridges),
        u32_at(d, records_pos(d)) == g.player_bridges.len(),
        holds_at(
            d,
            records_pos(d) + 4,
            tiles_bytes(g.player_bridges, g.player_bridges.len() as int),
        ),
    ensures
        !has_state(d),
{
    if titled(d) {
        let p = records_pos(d) + 4;
        let b = g.player_bridges;
        lemma_prefix(d, p, b, b.len() as int);
        let two = tile_bytes(b[0]) + tile_bytes(b[1]);
        let t = d.subrange(p, p + 16);
        assert(two.len() == 16);
        assert(two =~= t) by {
            assert forall|i: int| 0 <= i < 16 implies two[i] == t[i] by {
                if i < 8 {
                    assert(d[p + i] == tile_bytes(b[0])[i]);
                } else {
                    assert(d[p + 8 + (i - 8)] == tile_bytes(b[1])[i - 8]);
                }
            }
        }
    }
}

proof fn lemma_prefix(d: Seq<u8>, p: int, b: Seq<Coord>, n: int)
    requires
        2 <= n <= b.len(),
        holds_at(d, p, tiles_bytes(b, n)),
    ensures
        holds_at(d, p, tile_bytes(b[0])),
        holds_at(d, p + 8, tile_bytes(b[1])),
    decreases n,
{
    lemma_split(d, p, tiles_bytes(b, n - 1), tile_bytes(b[n - 1]));
    if n > 2 {
        lemma_prefix(d, p, b, n - 1);
    } else {
        reveal_with_fuel(tiles_bytes, 3);
        assert(tiles_bytes(b, 1) =~= tile_bytes(b[0]));
        assert(tile_bytes(b[0]).len() == 8);
    }
}

proof fn lemma_people_back(g: GameView, cam: CamState)
    requires
        g.world.wf(),
        countable(g),
    ensures
        rest_at(save_bytes(g, cam)).entities == Seq::new(
            g.entities.len(),
            |i: int| at_rest(g.entities[i]),
        ),
        !session_fits(g) ==> rest_at(save_bytes(g, cam)).player_bridges == g.player_bridges,
{
    lemma_parts(g, cam);
    let d = save_bytes(g, cam);
    let en = g.entities.len() as int;
    lemma_entities(d, 44, g.entities, en);
    assert forall|i: int| 0 <= i < en implies entity_at(d, 44 + i * ENTITY_LEN) == at_rest(
        g.entities[i],
    ) by {
        assert(entity_at(d, 44 + i * 20) == at_rest(g.entities[i]));
    }
    assert(rest_at(d).entities =~= Seq::new(g.entities.len(), |i: int| at_rest(g.entities[i])));
    if !session_fits(g) {
        let n = g.player_bridges.len() as int;
        let p = records_pos(d);
        lemma_records(d, p, g);
        lemma_tiles(d, p + 4, g.player_bridges, n);
        assert forall|i: int| 0 <= i < n implies tile_at(d, p + 4 + i * 8)
            == g.player_bridges[i] by {
            assert(tile_at(d, p + 4 + i * 8) == g.player_bridges[i]);
        }
        assert(rest_at(d).player_bridges =~= g.player_bridges);
    }
}

/// What a save holds besides what is going on.
proof fn lemma_rest_back(g: GameView, cam: CamState)
    requires
        g.world.wf(),
        countable(g),
    ensures
        ({
            let r = rest_at(save_bytes(g, cam));
            let back = reloaded(g);
            &&& r.world == back.world
            &&& r.player_house_tiles == back.player_house_tiles
            &&& r.cave_tiles == back.cave_tiles
            &&& r.hut_tiles == back.hut_tiles
            &&& r.wood == g.wood && r.stone == g.stone
            &&& r.enemies_defeated == g.enemies_defeated && r.units_lost == g.units_lost
            &&& r.build_mode == bridge_of_spec(bridge_code(g.build_mode))
            &&& r.priority == g.priority
            &&& r.gather_priority == g.gather_priority
            &&& cam_at(save_bytes(g, cam)) == cam
        }),
{
    let d = save_bytes(g, cam);
    assert(holds_at(d, 0, head_bytes(g, cam))) by {
        lemma_parts(g, cam);
    }
    lemma_head(d, g, cam);
    lemma_chunks_back(g, cam);
    lemma_people_back(g, cam);
    lemma_with_chunks(g.world.seed, g.world.coords, saved_cells(g.world.cells));
}

/// Loading a save brings the session back: the seed, the stockpile, the score, the build
/// mode and the priorities, every unit and what it is about, the player's bridges, every
/// loaded chunk, the rally flag, the huts on order, the saplings, the spawn timers, the
/// random generator, and the camera. (Of a session of more than 2^32 records everyone
/// comes back at rest; there, bridges that spell the title of a session are left out.)
pub proof fn law_save_round_trip(g: GameView, cam: CamState)
    requires
        g.world.wf(),
        keepable(g),
    ensures
        intact(save_bytes(g, cam)),
        game_at(save_bytes(g, cam)) == brought_back(g),
        cam_at(save_bytes(g, cam)) == cam,
{
    let d = save_bytes(g, cam);
    lemma_rest_back(g, cam);
    assert(intact(d)) by {
        lemma_parts(g, cam);
        lemma_head(d, g, cam);
    }
    if session_fits(g) {
        lemma_state_back(g, cam);
        assert(game_at(d) =~= reloaded(g));
    } else {
        assert(!has_state(d)) by {
            lemma_parts(g, cam);
            lemma_records(d, records_pos(d), g);
            lemma_untitled(d, g);
        }
        lemma_people_back(g, cam);
        assert(game_at(d) =~= rested(g));
    }
}

/// A file without a whole session is read as it stands: its build mode is Bridge where
/// the byte for it is 1, and House otherwise, everyone is at rest, and all records are
/// bridges.
pub proof fn law_file_without_a_session(d: Seq<u8>)
    requires
        !has_state(d),
    ensures
        game_at(d) == rest_at(d),
        game_at(d).build_mode == if d[25] == 1 {
            crate::game::BuildMode::Bridge
        } else {
            crate::game::BuildMode::House
        },
        game_at(d).rally_point is None,
        game_at(d).player_bridges.len() == u32_at(d, records_pos(d)),
{
}

/// No file is refused for the byte of its build mode.
pub proof fn law_mode_byte_refuses_nothing(d: Seq<u8>, code: u8)
    requires
        d.len() > 25,
    ensures
        intact(d.update(25, code)) == intact(d),
{
    let e = d.update(25, code);
    assert(e.take(5) =~= d.take(5));
    if d.len() >= 44 {
        assert(u32_at(e, 40) == u32_at(d, 40));
        if d.len() >= records_pos(d) + 4 {
            assert(u32_at(e, records_pos(d)) == u32_at(d, records_pos(d)));
            if d.len() >= chunks_pos(d) + 4 {
                assert(u32_at(e, chunks_pos(d)) == u32_at(d, chunks_pos(d)));
            }
        }
    }
}

/// The tile holds nothing that a save cannot keep.
pub open spec fn plain(c: Cell) -> bool {
    &&& c.node matches Some(n) ==> n.amount <= 255
    &&& c.wall matches Some(w) ==> w.owner != NO_OWNER
    &&& c.hut matches Some(h) ==> h.owner != NO_OWNER
}

pub open spec fn all_plain(w: WorldView) -> bool {
    forall|k: int, j: int|
        0 <= k < w.cells.len() && 0 <= j < w.cells[k].len() ==> plain(#[trigger] w.cells[k][j])
}

/// Loaded land comes back exactly as it was, tile by tile.
pub proof fn law_save_keeps_land(g: GameView)
    requires
        all_plain(g.world),
    ensures
        reloaded(g).world.seed == g.world.seed,
        reloaded(g).world.coords == g.world.coords,
        reloaded(g).world.cells == g.world.cells,
{
    let cells = saved_cells(g.world.cells);
    assert forall|k: int| 0 <= k < cells.len() implies cells[k] == g.world.cells[k] by {
        assert(cells[k] =~= g.world.cells[k]) by {
            assert forall|j: int| 0 <= j < cells[k].len() implies cells[k][j]
                == g.world.cells[k][j] by {
                assert(plain(g.world.cells[k][j]));
            }
        }
    }
    assert(cells =~= g.world.cells);
}

/// Saving a game that was just loaded writes the same bytes again.
pub proof fn law_resaving_changes_nothing(g: GameView, cam: CamState)
    requires
        all_plain(g.world),
    ensures
        save_bytes(reloaded(g), cam) == save_bytes(g, cam),
{
    law_save_keeps_land(g);
    let back = reloaded(g);
    assert(state_bytes(back) == state_bytes(g)) by {
        reveal(state_bytes);
    }
    assert(session_fits(back) == session_fits(g));
    assert(records_bytes(back) == records_bytes(g)) by {
        reveal(records_bytes);
    }
    assert(numbers_bytes(back) == numbers_bytes(g));
    assert(modes_bytes(back) == modes_bytes(g));
    assert(head_bytes(back, cam) == head_bytes(g, cam));
}

/// Bytes that do not start with the magic word and this version are refused.
pub proof fn law_foreign_bytes_refused(d: Seq<u8>)
    requires
        d.len() < 5 || d.take(5) != intro_bytes(),
    ensures
        !intact(d),
{
}

proof fn lemma_same_numbers(d: Seq<u8>, len: int, p: int)
    requires
        0 <= p,
        p + 4 <= len <= d.len(),
    ensures
        u32_at(d.take(len), p) == u32_at(d, p),
{
}

proof fn lemma_cut(d: Seq<u8>, len: int)
    requires
        d.len() == chunk_pos(d, u32_at(d, chunks_pos(d)) as int),
        0 <= len < d.len(),
    ensures
        !intact(d.take(len)),
{
    let cut = d.take(len);
    if intact(cut) {
        lemma_same_numbers(d, len, 40);
        assert(records_pos(cut) == records_pos(d));
        lemma_same_numbers(d, len, records_pos(d));
        assert(chunks_pos(cut) == chunks_pos(d));
        lemma_same_numbers(d, len, chunks_pos(d));
    }
}

/// A save that was cut short anywhere is refused.
pub proof fn law_cut_save_refused(g: GameView, cam: CamState, len: int)
    requires
        g.world.wf(),
        countable(g),
        0 <= len < save_bytes(g, cam).len(),
    ensures
        !intact(save_bytes(g, cam).take(len)),
{
    lemma_parts(g, cam);
    lemma_cut(save_bytes(g, cam), len);
}

} // verus!
