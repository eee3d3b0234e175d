//! The save format ("KGDM" .dat): a fixed header, then the units, a list of eight-byte
//! records, and every loaded chunk, each as a count and so many records.
//!
//! The eight-byte records are the player's bridges. Before them stands the session, under
//! a title of its own: the build mode, the spawn timers, the rally flag, the huts on
//! order, the saplings, and what everyone is about. A file without it is read as it
//! stands: the mode is House or Bridge, and everyone is at rest. As the session lies
//! before the chunks, a file that was cut short always lacks some of what it announces.

use vstd::prelude::*;
use crate::chunk::{Cell, Chunk, Hut, Node, Resource, Tile, Wall, CHUNK_TILES, NO_OWNER};
use crate::float::F32;
use crate::founding::GAME_SALT;
use crate::game::{
    units_of, BuildMode, CamState, Game, GameView, Sapling, ENEMY_SPAWN_INTERVAL,
    PLAYER_SPAWN_INTERVAL,
};
use crate::rng::Rng;
use crate::unit::{Anim, Dir, Entity, EntityView, Faction, GatherPriority, Job, Priority};
use crate::vec2::{Coord, Vec2};
use crate::world::{
    all_whole, cells_of, coords_of, scan, tiles_with, Layer, World, WorldView,
};

verus! {

pub const VERSION: u8 = 7;

/// Bytes of a unit's record.
pub const ENTITY_LEN: usize = 20;

/// Bytes of a chunk's record.
pub const CHUNK_LEN: usize = 18440;

// --- numbers ---------------------------------------------------------------------

pub open spec fn u32_bytes(v: u32) -> Seq<u8> {
    seq![
        (v % 256) as u8,
        (v / 0x100 % 256) as u8,
        (v / 0x1_0000 % 256) as u8,
        (v / 0x100_0000) as u8,
    ]
}

/// A signed number as the unsigned one with the same bits.
pub open spec fn unsigned(v: i32) -> u32 {
    if v < 0 {
        (v + 0x1_0000_0000) as u32
    } else {
        v as u32
    }
}

pub open spec fn signed(v: u32) -> i32 {
    if v >= 0x8000_0000 {
        (v - 0x1_0000_0000) as i32
    } else {
        v as i32
    }
}

pub open spec fn i32_bytes(v: i32) -> Seq<u8> {
    u32_bytes(unsigned(v))
}

pub open spec fn u32_at(d: Seq<u8>, p: int) -> u32 {
    (d[p] + 0x100 * d[p + 1] + 0x1_0000 * d[p + 2] + 0x100_0000 * d[p + 3]) as u32
}

pub open spec fn i32_at(d: Seq<u8>, p: int) -> i32 {
    signed(u32_at(d, p))
}

pub open spec fn u64_bytes(v: u64) -> Seq<u8> {
    u32_bytes((v % 0x1_0000_0000) as u32) + u32_bytes((v / 0x1_0000_0000) as u32)
}

pub open spec fn u64_at(d: Seq<u8>, p: int) -> u64 {
    (u32_at(d, p) + 0x1_0000_0000 * u32_at(d, p + 4)) as u64
}

pub open spec fn f32_at(d: Seq<u8>, p: int) -> F32 {
    F32 { bits: u32_at(d, p) }
}

/// Write a byte.
pub fn wu8(b: &mut Vec<u8>, v: u8)
    ensures
        final(b)@ == old(b)@ + seq![v],
{
    b.push(v);
    assert(b@ =~= old(b)@ + seq![v]);
}

/// Write a number, lowest byte first.
pub fn wu32(b: &mut Vec<u8>, v: u32)
    ensures
        final(b)@ == old(b)@ + u32_bytes(v),
{
    b.push((v % 256) as u8);
    b.push((v / 0x100 % 256) as u8);
    b.push((v / 0x1_0000 % 256) as u8);
    b.push((v / 0x100_0000) as u8);
    assert(b@ =~= old(b)@ + u32_bytes(v));
}

/// Write a number with its sign, lowest byte first.
pub fn wi32(b: &mut Vec<u8>, v: i32)
    ensures
        final(b)@ == old(b)@ + i32_bytes(v),
{
    let u: u32 = if v < 0 {
        (v as i64 + 0x1_0000_0000) as u32
    } else {
        v as u32
    };
    wu32(b, u);
}

fn wu64(b: &mut Vec<u8>, v: u64)
    ensures
        final(b)@ == old(b)@ + u64_bytes(v),
{
    wu32(b, (v % 0x1_0000_0000) as u32);
    wu32(b, (v / 0x1_0000_0000) as u32);
    assert(b@ =~= old(b)@ + u64_bytes(v));
}

/// Write the bits of a fraction, lowest byte first.
pub fn wf32(b: &mut Vec<u8>, v: F32)
    ensures
        final(b)@ == old(b)@ + u32_bytes(v.bits),
{
    wu32(b, v.bits);
}

fn ru32(d: &[u8], p: usize) -> (r: u32)
    requires
        p + 4 <= d@.len(),
    ensures
        r == u32_at(d@, p as int),
{
    d[p] as u32 + 0x100 * d[p + 1] as u32 + 0x1_0000 * d[p + 2] as u32 + 0x100_0000 * d[p
        + 3] as u32
}

fn ri32(d: &[u8], p: usize) -> (r: i32)
    requires
        p + 4 <= d@.len(),
    ensures
        r == i32_at(d@, p as int),
{
    let u: u32 = ru32(d, p);
    if u >= 0x8000_0000 {
        (u as i64 - 0x1_0000_0000) as i32
    } else {
        u as i32
    }
}

fn ru64(d: &[u8], p: usize) -> (r: u64)
    requires
        p + 8 <= d@.len(),
    ensures
        r == u64_at(d@, p as int),
{
    let low: u64 = ru32(d, p) as u64;
    let len: usize = d.len();
    assert(p + 8 <= len);
    low + 0x1_0000_0000 * ru32(d, p + 4) as u64
}

fn rf32(d: &[u8], p: usize) -> (r: F32)
    requires
        p + 4 <= d@.len(),
    ensures
        r == f32_at(d@, p as int),
{
    F32 { bits: ru32(d, p) }
}

/// Reads one number after another.
pub struct Reader<'a> {
    pub d: &'a [u8],
    /// Where the next one stands.
    pub p: usize,
}

impl<'a> Reader<'a> {
    /// The next byte, unless there is none.
    pub fn u8(&mut self) -> (r: Option<u8>)
        ensures
            final(self).d == old(self).d,
            match r {
                Some(v) => {
                    &&& old(self).p + 1 <= old(self).d@.len()
                    &&& v == old(self).d@[old(self).p as int]
                    &&& final(self).p == old(self).p + 1
                },
                None => {
                    &&& old(self).p + 1 > old(self).d@.len()
                    &&& final(self).p == old(self).p
                },
            },
    {
        if self.p > self.d.len() || self.d.len() - self.p < 1 {
            return None;
        }
        let v: u8 = self.d[self.p];
        self.p = self.p + 1;
        Some(v)
    }

    /// The next number, unless too few bytes are left.
    pub fn u32(&mut self) -> (r: Option<u32>)
        ensures
            final(self).d == old(self).d,
            match r {
                Some(v) => {
                    &&& old(self).p + 4 <= old(self).d@.len()
                    &&& v == u32_at(old(self).d@, old(self).p as int)
                    &&& final(self).p == old(self).p + 4
                },
                None => {
                    &&& old(self).p + 4 > old(self).d@.len()
                    &&& final(self).p == old(self).p
                },
            },
    {
        if self.p > self.d.len() || self.d.len() - self.p < 4 {
            return None;
        }
        let v: u32 = ru32(self.d, self.p);
        self.p = self.p + 4;
        Some(v)
    }

    /// The next number with its sign, unless too few bytes are left.
    pub fn i32(&mut self) -> (r: Option<i32>)
        ensures
            final(self).d == old(self).d,
            match r {
                Some(v) => {
                    &&& old(self).p + 4 <= old(self).d@.len()
                    &&& v == i32_at(old(self).d@, old(self).p as int)
                    &&& final(self).p == old(self).p + 4
                },
                None => {
                    &&& old(self).p + 4 > old(self).d@.len()
                    &&& final(self).p == old(self).p
                },
            },
    {
        if self.p > self.d.len() || self.d.len() - self.p < 4 {
            return None;
        }
        let v: i32 = ri32(self.d, self.p);
        self.p = self.p + 4;
        Some(v)
    }

    /// The next fraction, unless too few bytes are left.
    pub fn float(&mut self) -> (r: Option<F32>)
        ensures
            final(self).d == old(self).d,
            match r {
                Some(v) => {
                    &&& old(self).p + 4 <= old(self).d@.len()
                    &&& v == f32_at(old(self).d@, old(self).p as int)
                    &&& final(self).p == old(self).p + 4
                },
                None => {
                    &&& old(self).p + 4 > old(self).d@.len()
                    &&& final(self).p == old(self).p
                },
            },
    {
        if self.p > self.d.len() || self.d.len() - self.p < 4 {
            return None;
        }
        let v: F32 = rf32(self.d, self.p);
        self.p = self.p + 4;
        Some(v)
    }
}

// --- codes -------------------------------------------------------------------------

pub open spec fn faction_code(f: Faction) -> u8 {
    match f {
        Faction::Player => 0,
        Faction::Enemy => 1,
    }
}

pub fn faction_u8(f: Faction) -> (r: u8)
    ensures
        r == faction_code(f),
{
    match f {
        Faction::Player => 0,
        Faction::Enemy => 1,
    }
}

pub open spec fn faction_of_spec(b: u8) -> Faction {
    if b == 1 {
        Faction::Enemy
    } else {
        Faction::Player
    }
}

pub open spec fn job_code(j: Job) -> u8 {
    match j {
        Job::Farmer => 0,
        Job::Knight => 1,
    }
}

pub fn job_u8(j: Job) -> (r: u8)
    ensures
        r == job_code(j),
{
    match j {
        Job::Farmer => 0,
        Job::Knight => 1,
    }
}

pub open spec fn job_of_spec(b: u8) -> Job {
    if b == 1 {
        Job::Knight
    } else {
        Job::Farmer
    }
}

pub open spec fn dir_code(d: Dir) -> u8 {
    match d {
        Dir::Down => 0,
        Dir::Up => 1,
        Dir::Left => 2,
        Dir::Right => 3,
    }
}

pub fn dir_u8(d: Dir) -> (r: u8)
    ensures
        r == dir_code(d),
{
    match d {
        Dir::Down => 0,
        Dir::Up => 1,
        Dir::Left => 2,
        Dir::Right => 3,
    }
}

pub open spec fn dir_of_spec(b: u8) -> Dir {
    if b == 1 {
        Dir::Up
    } else if b == 2 {
        Dir::Left
    } else if b == 3 {
        Dir::Right
    } else {
        Dir::Down
    }
}

pub open spec fn anim_code(a: Anim) -> u8 {
    match a {
        Anim::Idle => 0,
        Anim::Walk => 1,
        Anim::Act => 2,
    }
}

pub fn anim_u8(a: Anim) -> (r: u8)
    ensures
        r == anim_code(a),
{
    match a {
        Anim::Idle => 0,
        Anim::Walk => 1,
        Anim::Act => 2,
    }
}

pub open spec fn anim_of_spec(b: u8) -> Anim {
    if b == 1 {
        Anim::Walk
    } else if b == 2 {
        Anim::Act
    } else {
        Anim::Idle
    }
}

pub open spec fn mode_code(m: BuildMode) -> u8 {
    match m {
        BuildMode::House => 0,
        BuildMode::Bridge => 1,
        BuildMode::Mine => 2,
        BuildMode::Wall => 3,
        BuildMode::Hut => 4,
        BuildMode::Rally => 5,
    }
}

fn mode_u8(m: BuildMode) -> (r: u8)
    ensures
        r == mode_code(m),
{
    match m {
        BuildMode::House => 0,
        BuildMode::Bridge => 1,
        BuildMode::Mine => 2,
        BuildMode::Wall => 3,
        BuildMode::Hut => 4,
        BuildMode::Rally => 5,
    }
}

pub open spec fn mode_of_spec(b: u8) -> BuildMode {
    if b == 1 {
        BuildMode::Bridge
    } else if b == 2 {
        BuildMode::Mine
    } else if b == 3 {
        BuildMode::Wall
    } else if b == 4 {
        BuildMode::Hut
    } else if b == 5 {
        BuildMode::Rally
    } else {
        BuildMode::House
    }
}

fn mode_of(b: u8) -> (r: BuildMode)
    ensures
        r == mode_of_spec(b),
{
    if b == 1 {
        BuildMode::Bridge
    } else if b == 2 {
        BuildMode::Mine
    } else if b == 3 {
        BuildMode::Wall
    } else if b == 4 {
        BuildMode::Hut
    } else if b == 5 {
        BuildMode::Rally
    } else {
        BuildMode::House
    }
}

pub open spec fn priority_code(p: Priority) -> u8 {
    if p == Priority::Military {
        1
    } else {
        0
    }
}

pub open spec fn priority_of_spec(b: u8) -> Priority {
    if b == 1 {
        Priority::Military
    } else {
        Priority::Agriculture
    }
}

pub open spec fn gather_code(p: GatherPriority) -> u8 {
    match p {
        GatherPriority::Balanced => 0,
        GatherPriority::Wood => 1,
        GatherPriority::Stone => 2,
    }
}

pub open spec fn gather_of_spec(b: u8) -> GatherPriority {
    if b == 1 {
        GatherPriority::Wood
    } else if b == 2 {
        GatherPriority::Stone
    } else {
        GatherPriority::Balanced
    }
}

// --- records -------------------------------------------------------------------------

pub open spec fn entity_bytes(e: EntityView) -> Seq<u8> {
    seq![faction_code(e.faction), job_code(e.job)] + u32_bytes(e.pos.x.bits) + u32_bytes(
        e.pos.y.bits,
    ) + u32_bytes(e.hp.bits) + u32_bytes(e.max_hp.bits) + seq![
        dir_code(e.facing),
        anim_code(e.anim),
    ]
}

pub open spec fn entity_at(d: Seq<u8>, p: int) -> EntityView {
    EntityView::idle(
        faction_of_spec(d[p]),
        job_of_spec(d[p + 1]),
        Vec2 { x: f32_at(d, p + 2), y: f32_at(d, p + 6) },
        f32_at(d, p + 10),
        f32_at(d, p + 14),
        dir_of_spec(d[p + 18]),
        anim_of_spec(d[p + 19]),
    )
}

pub open spec fn entities_bytes(es: Seq<EntityView>, n: int) -> Seq<u8>
    decreases n,
{
    if n <= 0 {
        Seq::empty()
    } else {
        entities_bytes(es, n - 1) + entity_bytes(es[n - 1])
    }
}

pub open spec fn tile_bytes(t: Coord) -> Seq<u8> {
    i32_bytes(t.0) + i32_bytes(t.1)
}

pub open spec fn tile_at(d: Seq<u8>, p: int) -> Coord {
    (i32_at(d, p), i32_at(d, p + 4))
}

pub open spec fn tiles_bytes(ts: Seq<Coord>, n: int) -> Seq<u8>
    decreases n,
{
    if n <= 0 {
        Seq::empty()
    } else {
        tiles_bytes(ts, n - 1) + tile_bytes(ts[n - 1])
    }
}

pub open spec fn flag(b: bool) -> u8 {
    if b {
        1
    } else {
        0
    }
}

/// What a layer of a chunk says of one tile: terrain, nodes, houses, enemy
/// houses, bridges, caves, walls, huts.
pub open spec fn piece(c: Cell, layer: int) -> Seq<u8> {
    if layer == 0 {
        seq![flag(c.tile == Tile::Grass)]
    } else if layer == 1 {
        match c.node {
            None => seq![0u8, 0u8],
            Some(n) => seq![
                if n.kind == Resource::Wood {
                    1u8
                } else {
                    2u8
                },
                if n.amount < 255 {
                    n.amount as u8
                } else {
                    255u8
                },
            ],
        }
    } else if layer == 2 {
        seq![flag(c.house)]
    } else if layer == 3 {
        seq![flag(c.enemy_house)]
    } else if layer == 4 {
        seq![flag(c.bridge)]
    } else if layer == 5 {
        seq![flag(c.cave)]
    } else if layer == 6 {
        match c.wall {
            None => seq![NO_OWNER] + u32_bytes(0),
            Some(w) => seq![w.owner] + u32_bytes(w.hp.bits),
        }
    } else {
        match c.hut {
            None => seq![NO_OWNER] + u32_bytes(0) + seq![0u8],
            Some(h) => seq![h.owner] + u32_bytes(h.hp.bits) + seq![h.occupants],
        }
    }
}

/// Bytes that a layer spends on a tile.
pub open spec fn width(layer: int) -> int {
    if layer == 1 {
        2
    } else if layer == 6 {
        5
    } else if layer == 7 {
        6
    } else {
        1
    }
}

/// Where a layer starts, from the first one.
pub open spec fn layer_start(layer: int) -> int {
    if layer <= 0 {
        0
    } else if layer == 1 {
        1024
    } else if layer == 2 {
        3072
    } else if layer == 3 {
        4096
    } else if layer == 4 {
        5120
    } else if layer == 5 {
        6144
    } else if layer == 6 {
        7168
    } else if layer == 7 {
        12288
    } else {
        18432
    }
}

pub open spec fn layer_bytes(cells: Seq<Cell>, layer: int, n: int) -> Seq<u8>
    decreases n,
{
    if n <= 0 {
        Seq::empty()
    } else {
        layer_bytes(cells, layer, n - 1) + piece(cells[n - 1], layer)
    }
}

/// The first `k` layers of a chunk.
pub open spec fn layers_bytes(cells: Seq<Cell>, k: int) -> Seq<u8>
    decreases k,
{
    if k <= 0 {
        Seq::empty()
    } else {
        layers_bytes(cells, k - 1) + layer_bytes(cells, k - 1, CHUNK_TILES as int)
    }
}

pub open spec fn chunk_bytes(c: Coord, cells: Seq<Cell>) -> Seq<u8> {
    tile_bytes(c) + layers_bytes(cells, 8)
}

pub open spec fn chunks_bytes(coords: Seq<Coord>, cells: Seq<Seq<Cell>>, n: int) -> Seq<u8>
    decreases n,
{
    if n <= 0 {
        Seq::empty()
    } else {
        chunks_bytes(coords, cells, n - 1) + chunk_bytes(coords[n - 1], cells[n - 1])
    }
}

pub open spec fn node_of_spec(kind: u8, amount: u8) -> Option<Node> {
    if kind == 1 {
        Some(Node { kind: Resource::Wood, amount: amount as u32 })
    } else if kind == 2 {
        Some(Node { kind: Resource::Stone, amount: amount as u32 })
    } else {
        None
    }
}

/// Tile `j` of the chunk whose layers start at `p`.
#[verifier::opaque]
pub open spec fn cell_at(d: Seq<u8>, p: int, j: int) -> Cell {
    Cell {
        tile: if d[p + j] == 1 {
            Tile::Grass
        } else {
            Tile::Water
        },
        node: node_of_spec(d[p + 1024 + 2 * j], d[p + 1024 + 2 * j + 1]),
        house: d[p + 3072 + j] != 0,
        enemy_house: d[p + 4096 + j] != 0,
        bridge: d[p + 5120 + j] != 0,
        cave: d[p + 6144 + j] != 0,
        wall: if d[p + 7168 + 5 * j] == NO_OWNER {
            None
        } else {
            Some(Wall { owner: d[p + 7168 + 5 * j], hp: f32_at(d, p + 7168 + 5 * j + 1) })
        },
        hut: if d[p + 12288 + 6 * j] == NO_OWNER {
            None
        } else {
            Some(
                Hut {
                    owner: d[p + 12288 + 6 * j],
                    hp: f32_at(d, p + 12288 + 6 * j + 1),
                    occupants: d[p + 12288 + 6 * j + 5],
                },
            )
        },
    }
}

/// The tiles of the chunk recorded at `p`.
#[verifier::opaque]
pub open spec fn cells_at(d: Seq<u8>, p: int) -> Seq<Cell> {
    Seq::new(CHUNK_TILES as nat, |j: int| cell_at(d, p + 8, j))
}

// --- the whole save --------------------------------------------------------------------

/// The magic word and the version.
pub open spec fn intro_bytes() -> Seq<u8> {
    seq![75u8, 71u8, 68u8, 77u8, VERSION]
}

pub open spec fn numbers_bytes(g: GameView) -> Seq<u8> {
    i32_bytes(g.world.seed) + u32_bytes(g.wood) + u32_bytes(g.stone) + u32_bytes(
        g.enemies_defeated,
    ) + u32_bytes(g.units_lost)
}

/// All that the header says of the build mode: is it Bridge?
pub open spec fn bridge_code(m: BuildMode) -> u8 {
    if m == BuildMode::Bridge {
        1
    } else {
        0
    }
}

pub open spec fn bridge_of_spec(b: u8) -> BuildMode {
    if b == 1 {
        BuildMode::Bridge
    } else {
        BuildMode::House
    }
}

pub open spec fn modes_bytes(g: GameView) -> Seq<u8> {
    seq![bridge_code(g.build_mode), priority_code(g.priority), gather_code(g.gather_priority)]
}

pub open spec fn cam_bytes(cam: CamState) -> Seq<u8> {
    u32_bytes(cam.cx.bits) + u32_bytes(cam.cy.bits) + u32_bytes(cam.view_height.bits)
}

pub open spec fn head_bytes(g: GameView, cam: CamState) -> Seq<u8> {
    intro_bytes() + numbers_bytes(g) + modes_bytes(g) + cam_bytes(cam)
}

pub open spec fn rally_bytes(rally: Option<Vec2>) -> Seq<u8> {
    match rally {
        None => seq![0u8] + u32_bytes(0) + u32_bytes(0),
        Some(p) => seq![1u8] + u32_bytes(p.x.bits) + u32_bytes(p.y.bits),
    }
}

pub open spec fn sapling_bytes(s: Sapling) -> Seq<u8> {
    tile_bytes(s.tile) + u32_bytes(s.grow.bits)
}

pub open spec fn sapling_at(d: Seq<u8>, p: int) -> Sapling {
    Sapling { tile: tile_at(d, p), grow: f32_at(d, p + 8) }
}

pub open spec fn saplings_bytes(s: Seq<Sapling>, n: int) -> Seq<u8>
    decreases n,
{
    if n <= 0 {
        Seq::empty()
    } else {
        saplings_bytes(s, n - 1) + sapling_bytes(s[n - 1])
    }
}

/// The spawn timers and cycles, and the random generator.
pub open spec fn clocks_bytes(g: GameView) -> Seq<u8> {
    u32_bytes(g.enemy_spawn_timer.bits) + u32_bytes(g.player_spawn_timer.bits) + u32_bytes(
        g.player_spawn_cycle,
    ) + u32_bytes(g.enemy_spawn_cycle) + u64_bytes(g.rng)
}

pub open spec fn spot_bytes(t: Option<Coord>) -> Seq<u8> {
    match t {
        None => seq![0u8] + u32_bytes(0) + u32_bytes(0),
        Some(c) => seq![1u8] + tile_bytes(c),
    }
}

pub open spec fn spot_at(d: Seq<u8>, p: int) -> Option<Coord> {
    if d[p] == 1 {
        Some(tile_at(d, p + 1))
    } else {
        None
    }
}

/// What a unit is about, but for its path.
pub open spec fn intent_bytes(e: EntityView) -> Seq<u8> {
    u32_bytes(e.anim_time.bits) + u32_bytes(e.harvest_timer.bits) + u32_bytes(e.repath.bits)
        + spot_bytes(e.target_node) + spot_bytes(e.mine_target) + spot_bytes(e.build_site) + seq![
        flag(e.sheltered),
    ] + u32_bytes(e.path_cursor as u32)
}

/// What a unit is about: 44 bytes, then its path.
pub open spec fn mind_bytes(e: EntityView) -> Seq<u8> {
    intent_bytes(e) + u32_bytes(e.path.len() as u32) + tiles_bytes(e.path, e.path.len() as int)
}

pub open spec fn minds_bytes(es: Seq<EntityView>, n: int) -> Seq<u8>
    decreases n,
{
    if n <= 0 {
        Seq::empty()
    } else {
        minds_bytes(es, n - 1) + mind_bytes(es[n - 1])
    }
}

/// The rally flag, the huts on order, and the saplings.
pub open spec fn plans_bytes(g: GameView) -> Seq<u8> {
    rally_bytes(g.rally_point) + u32_bytes(g.hut_orders.len() as u32) + tiles_bytes(
        g.hut_orders,
        g.hut_orders.len() as int,
    ) + u32_bytes(g.saplings.len() as u32) + saplings_bytes(g.saplings, g.saplings.len() as int)
}

/// What is going on.
#[verifier::opaque]
pub open spec fn state_bytes(g: GameView) -> Seq<u8> {
    clocks_bytes(g) + plans_bytes(g) + minds_bytes(g.entities, g.entities.len() as int)
}

/// The title that the session stands under: KGDM SESSION, and a number.
pub open spec fn title_bytes() -> Seq<u8> {
    seq![75u8, 71, 68, 77, 32, 83, 69, 83, 83, 73, 79, 78, 0, 0, 0, 1]
}

/// How many eight-byte records the session takes up.
pub open spec fn session_records(g: GameView) -> int {
    (24 + state_bytes(g).len() as int + 7) / 8
}

pub open spec fn zeros(n: int) -> Seq<u8> {
    Seq::new(n as nat, |i: int| 0u8)
}

/// The session: its title, its size, the build mode, what is going on, and as many
/// zeros as fill the last record.
pub open spec fn session_bytes(g: GameView) -> Seq<u8> {
    title_bytes() + u32_bytes(session_records(g) as u32) + u32_bytes(mode_code(g.build_mode) as u32)
        + state_bytes(g) + zeros(8 * session_records(g) - 24 - state_bytes(g).len())
}

/// The unit's path can be counted, and its place on it.
pub open spec fn steps_countable(e: EntityView) -> bool {
    e.path.len() <= u32::MAX && 0 <= e.path_cursor <= u32::MAX
}

pub open spec fn all_steps_countable(es: Seq<EntityView>) -> bool {
    forall|i: int| 0 <= i < es.len() ==> steps_countable(#[trigger] es[i])
}

/// The session can be counted in records, and all that it holds.
pub open spec fn session_fits(g: GameView) -> bool {
    &&& g.hut_orders.len() <= u32::MAX
    &&& g.saplings.len() <= u32::MAX
    &&& all_steps_countable(g.entities)
    &&& session_records(g) + g.player_bridges.len() <= u32::MAX
}

/// The count of records, the session where it fits, and the player's bridges.
#[verifier::opaque]
pub open spec fn records_bytes(g: GameView) -> Seq<u8> {
    let bridges = tiles_bytes(g.player_bridges, g.player_bridges.len() as int);
    if session_fits(g) {
        u32_bytes((session_records(g) + g.player_bridges.len()) as u32) + session_bytes(g)
            + bridges
    } else {
        u32_bytes(g.player_bridges.len() as u32) + bridges
    }
}

/// What is written for a game.
pub open spec fn save_bytes(g: GameView, cam: CamState) -> Seq<u8> {
    head_bytes(g, cam) + u32_bytes(g.entities.len() as u32) + entities_bytes(
        g.entities,
        g.entities.len() as int,
    ) + records_bytes(g) + u32_bytes(g.world.coords.len() as u32) + chunks_bytes(
        g.world.coords,
        g.world.cells,
        g.world.coords.len() as int,
    )
}

/// Where the count of eight-byte records stands.
pub open spec fn records_pos(d: Seq<u8>) -> int {
    44 + ENTITY_LEN * u32_at(d, 40)
}

/// Where the count of chunks stands.
pub open spec fn chunks_pos(d: Seq<u8>) -> int {
    records_pos(d) + 4 + 8 * u32_at(d, records_pos(d))
}

pub open spec fn chunk_pos(d: Seq<u8>, k: int) -> int {
    chunks_pos(d) + 4 + k * CHUNK_LEN
}

/// Where the session ends, if there is one, and the bridges begin.
pub open spec fn session_end(d: Seq<u8>) -> int {
    records_pos(d) + 4 + 8 * u32_at(d, records_pos(d) + 20)
}

/// Where what is going on stands in the session.
pub open spec fn state_pos(d: Seq<u8>) -> int {
    records_pos(d) + 28
}

/// Where the count of saplings stands.
pub open spec fn saplings_pos(d: Seq<u8>) -> int {
    state_pos(d) + 37 + 8 * u32_at(d, state_pos(d) + 33)
}

/// Where what the units are about begins.
pub open spec fn minds_start(d: Seq<u8>) -> int {
    saplings_pos(d) + 4 + 12 * u32_at(d, saplings_pos(d))
}

/// Where the record for unit `i` stands, if the first stands at `q`.
pub open spec fn mind_pos(d: Seq<u8>, q: int, i: int) -> int
    decreases i,
{
    if i <= 0 {
        q
    } else {
        let p = mind_pos(d, q, i - 1);
        p + 48 + 8 * u32_at(d, p + 44)
    }
}

/// The first `n` of these records end before `end`.
pub open spec fn minds_fit(d: Seq<u8>, q: int, n: int, end: int) -> bool
    decreases n,
{
    if n <= 0 {
        true
    } else {
        &&& minds_fit(d, q, n - 1, end)
        &&& end >= mind_pos(d, q, n - 1) + 48
        &&& end >= mind_pos(d, q, n)
    }
}

/// The bytes begin as a save does, and hold all that their counts announce.
pub open spec fn intact(d: Seq<u8>) -> bool {
    &&& d.len() >= 44
    &&& d.take(5) == intro_bytes()
    &&& d.len() >= records_pos(d) + 4
    &&& d.len() >= chunks_pos(d) + 4
    &&& d.len() >= chunk_pos(d, u32_at(d, chunks_pos(d)) as int)
}

/// The records open with the title of a session.
pub open spec fn titled(d: Seq<u8>) -> bool {
    &&& u32_at(d, records_pos(d)) >= 3
    &&& d.subrange(records_pos(d) + 4, records_pos(d) + 20) == title_bytes()
}

/// The records hold a session, and all of it.
pub open spec fn has_state(d: Seq<u8>) -> bool {
    let end = session_end(d);
    &&& titled(d)
    &&& end <= chunks_pos(d)
    &&& end >= state_pos(d) + 37
    &&& end >= saplings_pos(d) + 4
    &&& end >= minds_start(d)
    &&& minds_fit(d, minds_start(d), u32_at(d, 40) as int, end)
}

pub open spec fn rally_at(d: Seq<u8>, p: int) -> Option<Vec2> {
    if d[p] == 1 {
        Some(Vec2 { x: f32_at(d, p + 1), y: f32_at(d, p + 5) })
    } else {
        None
    }
}

/// The unit, with what it is about as recorded at `p`.
pub open spec fn mind_at(d: Seq<u8>, p: int, e: EntityView) -> EntityView {
    EntityView {
        anim_time: f32_at(d, p),
        harvest_timer: f32_at(d, p + 4),
        repath: f32_at(d, p + 8),
        target_node: spot_at(d, p + 12),
        mine_target: spot_at(d, p + 21),
        build_site: spot_at(d, p + 30),
        sheltered: d[p + 39] == 1,
        path_cursor: u32_at(d, p + 40) as int,
        path: Seq::new(u32_at(d, p + 44) as nat, |i: int| tile_at(d, p + 48 + i * 8)),
        ..e
    }
}

pub open spec fn coords_at(d: Seq<u8>) -> Seq<Coord> {
    Seq::new(u32_at(d, chunks_pos(d)) as nat, |k: int| tile_at(d, chunk_pos(d, k)))
}

pub open spec fn all_cells_at(d: Seq<u8>) -> Seq<Seq<Cell>> {
    Seq::new(u32_at(d, chunks_pos(d)) as nat, |k: int| cells_at(d, chunk_pos(d, k)))
}

pub open spec fn empty_world(seed: i32) -> WorldView {
    WorldView {
        seed,
        coords: Seq::empty(),
        cells: Seq::empty(),
        enemy_house_tiles: Seq::empty(),
    }
}

pub open spec fn cam_at(d: Seq<u8>) -> CamState {
    CamState { cx: f32_at(d, 28), cy: f32_at(d, 32), view_height: f32_at(d, 36) }
}

/// A game without a session: its people are at rest, nothing is under way, and the lists
/// of buildings are made anew.
pub open spec fn resumed(
    world: WorldView,
    houses: Seq<Coord>,
    caves: Seq<Coord>,
    huts: Seq<Coord>,
    entities: Seq<EntityView>,
    bridges: Seq<Coord>,
    stock: (u32, u32),
    score: (u32, u32),
    build_mode: BuildMode,
    priority: Priority,
    gather_priority: GatherPriority,
) -> GameView {
    GameView {
        world,
        entities,
        wood: stock.0,
        stone: stock.1,
        build_mode,
        priority,
        gather_priority,
        enemies_defeated: score.0,
        units_lost: score.1,
        rally_point: None,
        player_house_tiles: houses,
        cave_tiles: caves,
        hut_tiles: huts,
        hut_orders: Seq::empty(),
        saplings: Seq::empty(),
        player_bridges: bridges,
        enemy_spawn_timer: F32 { bits: ENEMY_SPAWN_INTERVAL },
        player_spawn_timer: F32 { bits: PLAYER_SPAWN_INTERVAL },
        player_spawn_cycle: 0,
        enemy_spawn_cycle: 0,
        rng: ((world.seed as u64) ^ GAME_SALT) | 1,
    }
}

/// The game that the bytes hold, if there is no session among them.
pub open spec fn rest_at(d: Seq<u8>) -> GameView {
    let coords = coords_at(d);
    let cells = all_cells_at(d);
    resumed(
        empty_world(i32_at(d, 5)).with_chunks(coords, cells).rescanned(),
        tiles_with(coords, cells, Layer::House),
        tiles_with(coords, cells, Layer::Cave),
        tiles_with(coords, cells, Layer::Hut),
        Seq::new(u32_at(d, 40) as nat, |i: int| entity_at(d, 44 + i * ENTITY_LEN)),
        Seq::new(
            u32_at(d, records_pos(d)) as nat,
            |i: int| tile_at(d, records_pos(d) + 4 + i * 8),
        ),
        (u32_at(d, 9), u32_at(d, 13)),
        (u32_at(d, 17), u32_at(d, 21)),
        bridge_of_spec(d[25]),
        priority_of_spec(d[26]),
        gather_of_spec(d[27]),
    )
}

/// The records behind the session.
pub open spec fn bridges_at(d: Seq<u8>) -> Seq<Coord> {
    Seq::new(
        (u32_at(d, records_pos(d)) - u32_at(d, records_pos(d) + 20)) as nat,
        |i: int| tile_at(d, session_end(d) + i * 8),
    )
}

/// The game that the bytes hold.
pub open spec fn game_at(d: Seq<u8>) -> GameView {
    let g = rest_at(d);
    if !has_state(d) {
        g
    } else {
        let p = state_pos(d);
        let q = saplings_pos(d);
        GameView {
            entities: Seq::new(
                g.entities.len(),
                |i: int| mind_at(d, mind_pos(d, minds_start(d), i), g.entities[i]),
            ),
            enemy_spawn_timer: f32_at(d, p),
            player_spawn_timer: f32_at(d, p + 4),
            player_spawn_cycle: u32_at(d, p + 8),
            enemy_spawn_cycle: u32_at(d, p + 12),
            rng: u64_at(d, p + 16),
            rally_point: rally_at(d, p + 24),
            hut_orders: Seq::new(u32_at(d, p + 33) as nat, |i: int| tile_at(d, p + 37 + i * 8)),
            saplings: Seq::new(u32_at(d, q) as nat, |i: int| sapling_at(d, q + 4 + i * 12)),
            build_mode: mode_of_spec(d[p - 4]),
            player_bridges: bridges_at(d),
            ..g
        }
    }
}

// --- writing -----------------------------------------------------------------------------

fn write_entity(b: &mut Vec<u8>, e: &Entity)
    ensures
        final(b)@ == old(b)@ + entity_bytes(e@),
{
    wu8(b, faction_u8(e.faction));
    wu8(b, job_u8(e.job));
    wf32(b, e.pos.x);
    wf32(b, e.pos.y);
    wf32(b, e.hp);
    wf32(b, e.max_hp);
    wu8(b, dir_u8(e.facing));
    wu8(b, anim_u8(e.anim));
    assert(b@ =~= old(b)@ + entity_bytes(e@));
}

fn write_piece(b: &mut Vec<u8>, c: &Cell, layer: u32)
    ensures
        final(b)@ == old(b)@ + piece(*c, layer as int),
{
    if layer == 0 {
        wu8(
            b,
            if c.tile == Tile::Grass {
                1
            } else {
                0
            },
        );
    } else if layer == 1 {
        match c.node {
            None => {
                wu8(b, 0);
                wu8(b, 0);
            },
            Some(n) => {
                wu8(
                    b,
                    if n.kind == Resource::Wood {
                        1
                    } else {
                        2
                    },
                );
                wu8(
                    b,
                    if n.amount < 255 {
                        n.amount as u8
                    } else {
                        255
                    },
                );
            },
        }
    } else if layer < 6 {
        let on: bool = if layer == 2 {
            c.house
        } else if layer == 3 {
            c.enemy_house
        } else if layer == 4 {
            c.bridge
        } else {
            c.cave
        };
        wu8(
            b,
            if on {
                1
            } else {
                0
            },
        );
    } else if layer == 6 {
        match c.wall {
            None => {
                wu8(b, NO_OWNER);
                wu32(b, 0);
            },
            Some(w) => {
                wu8(b, w.owner);
                wf32(b, w.hp);
            },
        }
    } else {
        match c.hut {
            None => {
                wu8(b, NO_OWNER);
                wu32(b, 0);
                wu8(b, 0);
            },
            Some(h) => {
                wu8(b, h.owner);
                wf32(b, h.hp);
                wu8(b, h.occupants);
            },
        }
    }
    assert(b@ =~= old(b)@ + piece(*c, layer as int));
}

fn write_chunk(b: &mut Vec<u8>, c: Coord, chunk: &Chunk)
    requires
        chunk.wf(),
    ensures
        final(b)@ == old(b)@ + chunk_bytes(c, chunk@),
{
    wi32(b, c.0);
    wi32(b, c.1);
    let ghost start = b@;
    assert(start =~= old(b)@ + tile_bytes(c));
    let mut layer: u32 = 0;
    while layer < 8
        invariant
            layer <= 8,
            chunk.wf(),
            b@ =~= start + layers_bytes(chunk@, layer as int),
        decreases 8 - layer,
    {
        let ghost before = b@;
        let mut j: usize = 0;
        while j < CHUNK_TILES
            invariant
                j <= CHUNK_TILES,
                chunk.wf(),
                b@ =~= before + layer_bytes(chunk@, layer as int, j as int),
            decreases CHUNK_TILES - j,
        {
            write_piece(b, &chunk.cell(j), layer);
            j = j + 1;
        }
        layer = layer + 1;
    }
    assert(b@ =~= old(b)@ + chunk_bytes(c, chunk@));
}

fn write_head(b: &mut Vec<u8>, g: &Game, cam: CamState)
    requires
        g.wf(),
    ensures
        final(b)@ == old(b)@ + head_bytes(g@, cam),
{
    wu8(b, 75);
    wu8(b, 71);
    wu8(b, 68);
    wu8(b, 77);
    wu8(b, VERSION);
    assert(b@ =~= old(b)@ + intro_bytes());
    let ghost a = b@;
    wi32(b, g.world.seed());
    wu32(b, g.wood);
    wu32(b, g.stone);
    wu32(b, g.enemies_defeated);
    wu32(b, g.units_lost);
    assert(b@ =~= a + numbers_bytes(g@));
    let ghost a = b@;
    wu8(
        b,
        if g.build_mode == BuildMode::Bridge {
            1
        } else {
            0
        },
    );
    wu8(
        b,
        if g.priority == Priority::Military {
            1
        } else {
            0
        },
    );
    wu8(
        b,
        match g.gather_priority {
            GatherPriority::Balanced => 0,
            GatherPriority::Wood => 1,
            GatherPriority::Stone => 2,
        },
    );
    assert(b@ =~= a + modes_bytes(g@));
    let ghost a = b@;
    wf32(b, cam.cx);
    wf32(b, cam.cy);
    wf32(b, cam.view_height);
    assert(b@ =~= a + cam_bytes(cam));
    assert(b@ =~= old(b)@ + head_bytes(g@, cam));
}

fn write_tiles(b: &mut Vec<u8>, tiles: &Vec<Coord>)
    ensures
        final(b)@ == old(b)@ + tiles_bytes(tiles@, tiles@.len() as int),
{
    let ghost a = b@;
    let mut i: usize = 0;
    while i < tiles.len()
        invariant
            i <= tiles.len(),
            b@ =~= a + tiles_bytes(tiles@, i as int),
        decreases tiles.len() - i,
    {
        let t: Coord = tiles[i];
        wi32(b, t.0);
        wi32(b, t.1);
        assert(b@ =~= a + tiles_bytes(tiles@, i as int) + tile_bytes(t));
        i = i + 1;
    }
}

fn write_saplings(b: &mut Vec<u8>, saplings: &Vec<Sapling>)
    ensures
        final(b)@ == old(b)@ + saplings_bytes(saplings@, saplings@.len() as int),
{
    let ghost a = b@;
    let mut i: usize = 0;
    while i < saplings.len()
        invariant
            i <= saplings.len(),
            b@ =~= a + saplings_bytes(saplings@, i as int),
        decreases saplings.len() - i,
    {
        let s: Sapling = saplings[i];
        wi32(b, s.tile.0);
        wi32(b, s.tile.1);
        wf32(b, s.grow);
        assert(b@ =~= a + saplings_bytes(saplings@, i as int) + sapling_bytes(s));
        i = i + 1;
    }
}

fn write_spot(b: &mut Vec<u8>, t: Option<Coord>)
    ensures
        final(b)@ == old(b)@ + spot_bytes(t),
{
    match t {
        None => {
            wu8(b, 0);
            wu32(b, 0);
            wu32(b, 0);
        },
        Some(c) => {
            wu8(b, 1);
            wi32(b, c.0);
            wi32(b, c.1);
        },
    }
    assert(b@ =~= old(b)@ + spot_bytes(t));
}

fn write_intent(b: &mut Vec<u8>, e: &Entity)
    ensures
        final(b)@ == old(b)@ + intent_bytes(e@),
{
    wf32(b, e.anim_time);
    wf32(b, e.harvest_timer);
    wf32(b, e.repath);
    write_spot(b, e.target_node);
    write_spot(b, e.mine_target);
    write_spot(b, e.build_site);
    wu8(
        b,
        if e.sheltered {
            1
        } else {
            0
        },
    );
    wu32(b, e.path_cursor as u32);
    assert(b@ =~= old(b)@ + intent_bytes(e@));
}

fn write_mind(b: &mut Vec<u8>, e: &Entity)
    ensures
        final(b)@ == old(b)@ + mind_bytes(e@),
{
    write_intent(b, e);
    wu32(b, e.path.len() as u32);
    write_tiles(b, &e.path);
    assert(b@ =~= old(b)@ + mind_bytes(e@));
}

fn write_clocks(b: &mut Vec<u8>, g: &Game)
    ensures
        final(b)@ == old(b)@ + clocks_bytes(g@),
{
    wf32(b, g.enemy_spawn_timer);
    wf32(b, g.player_spawn_timer);
    wu32(b, g.player_spawn_cycle);
    wu32(b, g.enemy_spawn_cycle);
    wu64(b, g.rng.state());
    assert(b@ =~= old(b)@ + clocks_bytes(g@));
}

fn write_plans(b: &mut Vec<u8>, g: &Game)
    ensures
        final(b)@ == old(b)@ + plans_bytes(g@),
{
    match g.rally_point {
        None => {
            wu8(b, 0);
            wu32(b, 0);
            wu32(b, 0);
        },
        Some(p) => {
            wu8(b, 1);
            wf32(b, p.x);
            wf32(b, p.y);
        },
    }
    assert(b@ =~= old(b)@ + rally_bytes(g@.rally_point));
    wu32(b, g.hut_orders.len() as u32);
    write_tiles(b, &g.hut_orders);
    wu32(b, g.saplings.len() as u32);
    write_saplings(b, &g.saplings);
    assert(b@ =~= old(b)@ + plans_bytes(g@));
}

/// What is going on.
fn write_state(b: &mut Vec<u8>, g: &Game)
    ensures
        final(b)@ == old(b)@ + state_bytes(g@),
{
    write_clocks(b, g);
    write_plans(b, g);
    let ghost a = b@;
    let mut i: usize = 0;
    while i < g.entities.len()
        invariant
            i <= g.entities.len(),
            b@ =~= a + minds_bytes(g@.entities, i as int),
        decreases g.entities.len() - i,
    {
        assert(g@.entities[i as int] == g.entities@[i as int]@);
        write_mind(b, &g.entities[i]);
        i = i + 1;
    }
    proof {
        reveal(state_bytes);
    }
    assert(b@ =~= old(b)@ + state_bytes(g@));
}

fn write_zeros(b: &mut Vec<u8>, n: usize)
    ensures
        final(b)@ == old(b)@ + zeros(n as int),
{
    let ghost a = b@;
    let mut i: usize = 0;
    assert(a + zeros(0) =~= a);
    while i < n
        invariant
            i <= n,
            b@ =~= a + zeros(i as int),
        decreases n - i,
    {
        wu8(b, 0);
        assert(zeros(i as int) + seq![0u8] =~= zeros(i + 1));
        i = i + 1;
    }
}

fn write_title(b: &mut Vec<u8>)
    ensures
        final(b)@ == old(b)@ + title_bytes(),
{
    wu8(b, 75);
    wu8(b, 71);
    wu8(b, 68);
    wu8(b, 77);
    wu8(b, 32);
    wu8(b, 83);
    wu8(b, 69);
    wu8(b, 83);
    wu8(b, 83);
    wu8(b, 73);
    wu8(b, 79);
    wu8(b, 78);
    wu8(b, 0);
    wu8(b, 0);
    wu8(b, 0);
    wu8(b, 1);
    assert(b@ =~= old(b)@ + title_bytes());
}

fn can_count_steps(entities: &Vec<Entity>) -> (r: bool)
    ensures
        r == all_steps_countable(units_of(entities@)),
{
    let mut i: usize = 0;
    while i < entities.len()
        invariant
            i <= entities.len(),
            forall|k: int| 0 <= k < i ==> steps_countable(#[trigger] units_of(entities@)[k]),
        decreases entities.len() - i,
    {
        assert(units_of(entities@)[i as int] == entities@[i as int]@);
        if entities[i].path.len() as u64 > u32::MAX as u64 || entities[i].path_cursor as u64
            > u32::MAX as u64 {
            assert(!steps_countable(units_of(entities@)[i as int]));
            return false;
        }
        i = i + 1;
    }
    true
}

/// What is going on, if the session fits, and how many records it takes.
fn session_state(g: &Game) -> (r: Option<(Vec<u8>, u32)>)
    ensures
        r is Some == session_fits(g@),
        r matches Some(s) ==> s.0@ == state_bytes(g@) && s.1 == session_records(g@),
{
    if g.hut_orders.len() as u64 > u32::MAX as u64 || g.saplings.len() as u64 > u32::MAX as u64
        || !can_count_steps(&g.entities) {
        return None;
    }
    let mut state: Vec<u8> = Vec::new();
    write_state(&mut state, g);
    assert(state@ =~= state_bytes(g@));
    let records: u128 = (state.len() as u128 + 31) / 8;
    if records + g.player_bridges.len() as u128 > u32::MAX as u128 {
        return None;
    }
    Some((state, records as u32))
}

fn write_records(b: &mut Vec<u8>, g: &Game)
    ensures
        final(b)@ == old(b)@ + records_bytes(g@),
{
    proof {
        reveal(records_bytes);
    }
    match session_state(g) {
        Some(s) => {
            let mut state: Vec<u8> = s.0;
            let records: u32 = s.1;
            let pad: usize = (records as u64 * 8 - 24 - state.len() as u64) as usize;
            wu32(b, records + g.player_bridges.len() as u32);
            let ghost a = b@;
            write_title(b);
            wu32(b, records);
            wu32(b, mode_u8(g.build_mode) as u32);
            b.append(&mut state);
            write_zeros(b, pad);
            assert(b@ =~= a + session_bytes(g@));
        },
        None => {
            wu32(b, g.player_bridges.len() as u32);
        },
    }
    write_tiles(b, &g.player_bridges);
    assert(b@ =~= old(b)@ + records_bytes(g@));
}

impl Game {
    /// Write the game out.
    pub fn to_bytes(&self, cam: CamState) -> (r: Vec<u8>)
        requires
            self.wf(),
        ensures
            r@ == save_bytes(self@, cam),
    {
        let mut b: Vec<u8> = Vec::new();
        write_head(&mut b, self, cam);
        wu32(&mut b, self.entities.len() as u32);
        let ghost a = b@;
        let mut i: usize = 0;
        while i < self.entities.len()
            invariant
                i <= self.entities.len(),
                b@ =~= a + entities_bytes(self@.entities, i as int),
            decreases self.entities.len() - i,
        {
            assert(self@.entities[i as int] == self.entities@[i as int]@);
            write_entity(&mut b, &self.entities[i]);
            i = i + 1;
        }
        write_records(&mut b, self);
        let chunks: &Vec<(Coord, Chunk)> = self.world.chunks_iter();
        wu32(&mut b, chunks.len() as u32);
        let ghost a3 = b@;
        let mut i: usize = 0;
        while i < chunks.len()
            invariant
                i <= chunks.len(),
                all_whole(chunks@),
                coords_of(chunks@) == self@.world.coords,
                cells_of(chunks@) == self@.world.cells,
                b@ =~= a3 + chunks_bytes(self@.world.coords, self@.world.cells, i as int),
            decreases chunks.len() - i,
        {
            assert(chunks@[i as int].1.wf());
            assert(coords_of(chunks@)[i as int] == chunks@[i as int].0);
            assert(cells_of(chunks@)[i as int] == chunks@[i as int].1@);
            write_chunk(&mut b, chunks[i].0, &chunks[i].1);
            i = i + 1;
        }
        assert(b@ =~= save_bytes(self@, cam));
        b
    }
}

// --- reading ------------------------------------------------------------------------------

fn read_entity(d: &[u8], p: usize) -> (r: Entity)
    requires
        p + ENTITY_LEN <= d@.len(),
    ensures
        r@ == entity_at(d@, p as int),
{
    let faction: Faction = if d[p] == 1 {
        Faction::Enemy
    } else {
        Faction::Player
    };
    let job: Job = if d[p + 1] == 1 {
        Job::Knight
    } else {
        Job::Farmer
    };
    let facing: Dir = if d[p + 18] == 1 {
        Dir::Up
    } else if d[p + 18] == 2 {
        Dir::Left
    } else if d[p + 18] == 3 {
        Dir::Right
    } else {
        Dir::Down
    };
    let anim: Anim = if d[p + 19] == 1 {
        Anim::Walk
    } else if d[p + 19] == 2 {
        Anim::Act
    } else {
        Anim::Idle
    };
    let pos: Vec2 = Vec2 { x: rf32(d, p + 2), y: rf32(d, p + 6) };
    Entity::idle(faction, job, pos, rf32(d, p + 10), rf32(d, p + 14), facing, anim)
}

fn read_cell(d: &[u8], p: usize, j: usize) -> (r: Cell)
    requires
        p + 18432 <= d@.len(),
        j < CHUNK_TILES,
    ensures
        r == cell_at(d@, p as int, j as int),
{
    proof {
        reveal(cell_at);
    }
    let len: usize = d.len();
    assert(p + 18432 <= len);
    let kind: u8 = d[p + 1024 + 2 * j];
    let amount: u32 = d[p + 1024 + 2 * j + 1] as u32;
    let wall: u8 = d[p + 7168 + 5 * j];
    let hut: u8 = d[p + 12288 + 6 * j];
    Cell {
        tile: if d[p + j] == 1 {
            Tile::Grass
        } else {
            Tile::Water
        },
        node: if kind == 1 {
            Some(Node { kind: Resource::Wood, amount })
        } else if kind == 2 {
            Some(Node { kind: Resource::Stone, amount })
        } else {
            None
        },
        house: d[p + 3072 + j] != 0,
        enemy_house: d[p + 4096 + j] != 0,
        bridge: d[p + 5120 + j] != 0,
        cave: d[p + 6144 + j] != 0,
        wall: if wall == NO_OWNER {
            None
        } else {
            Some(Wall { owner: wall, hp: rf32(d, p + 7168 + 5 * j + 1) })
        },
        hut: if hut == NO_OWNER {
            None
        } else {
            Some(
                Hut {
                    owner: hut,
                    hp: rf32(d, p + 12288 + 6 * j + 1),
                    occupants: d[p + 12288 + 6 * j + 5],
                },
            )
        },
    }
}

fn read_chunk(d: &[u8], p: usize) -> (r: Chunk)
    requires
        p + CHUNK_LEN <= d@.len(),
    ensures
        r.wf(),
        r@ == cells_at(d@, p as int),
{
    let len: usize = d.len();
    let mut chunk: Chunk = Chunk::blank();
    let mut j: usize = 0;
    while j < CHUNK_TILES
        invariant
            j <= CHUNK_TILES,
            len == d@.len(),
            p + CHUNK_LEN <= len,
            chunk.wf(),
            forall|k: int| 0 <= k < j ==> chunk@[k] == #[trigger] cell_at(d@, p + 8, k),
        decreases CHUNK_TILES - j,
    {
        chunk.set_cell(j, read_cell(d, p + 8, j));
        j = j + 1;
    }
    proof {
        reveal(cells_at);
    }
    assert(chunk@ =~= cells_at(d@, p as int));
    chunk
}

fn is_save(d: &[u8]) -> (r: bool)
    ensures
        r == (d@.len() >= 5 && d@.take(5) == intro_bytes()),
{
    if d.len() < 5 {
        return false;
    }
    let r: bool = d[0] == 75 && d[1] == 71 && d[2] == 68 && d[3] == 77 && d[4] == VERSION;
    proof {
        if r {
            assert(d@.take(5) =~= intro_bytes());
        } else if d@.take(5) == intro_bytes() {
            assert(d@.take(5)[0] == d@[0]);
            assert(d@.take(5)[1] == d@[1]);
            assert(d@.take(5)[2] == d@[2]);
            assert(d@.take(5)[3] == d@[3]);
            assert(d@.take(5)[4] == d@[4]);
        }
    }
    r
}

proof fn lemma_fit_before(d: Seq<u8>, q: int, i: int, n: int, end: int)
    requires
        0 <= i <= n,
        q <= end,
        minds_fit(d, q, n, end),
    ensures
        minds_fit(d, q, i, end),
        mind_pos(d, q, i) <= end,
    decreases n,
{
    if i < n {
        lemma_fit_before(d, q, i, n - 1, end);
    }
}

/// Do the records of what `n` units are about end before `end`?
fn minds_there(d: &[u8], q: usize, n: u32, end: usize) -> (r: bool)
    requires
        q <= end <= d@.len(),
    ensures
        r == minds_fit(d@, q as int, n as int, end as int),
{
    let len: usize = d.len();
    let mut p: usize = q;
    let mut i: u32 = 0;
    while i < n
        invariant
            i <= n,
            len == d@.len(),
            q <= end <= len,
            p <= end,
            p == mind_pos(d@, q as int, i as int),
            minds_fit(d@, q as int, i as int, end as int),
        decreases n - i,
    {
        proof {
            if minds_fit(d@, q as int, n as int, end as int) {
                lemma_fit_before(d@, q as int, i + 1, n as int, end as int);
            }
        }
        if end - p < 48 {
            return false;
        }
        let count: u32 = ru32(d, p + 44);
        if ((end - p - 48) as u64) < 8 * count as u64 {
            return false;
        }
        p = p + 48 + 8 * count as usize;
        i = i + 1;
    }
    true
}

fn has_title(d: &[u8], p: usize) -> (r: bool)
    requires
        p + 16 <= d@.len(),
    ensures
        r == (d@.subrange(p as int, p + 16) == title_bytes()),
{
    let len: usize = d.len();
    let r: bool = d[p] == 75 && d[p + 1] == 71 && d[p + 2] == 68 && d[p + 3] == 77 && d[p + 4] == 32
        && d[p + 5] == 83 && d[p + 6] == 69 && d[p + 7] == 83 && d[p + 8] == 83 && d[p + 9] == 73
        && d[p + 10] == 79 && d[p + 11] == 78 && d[p + 12] == 0 && d[p + 13] == 0 && d[p + 14] == 0
        && d[p + 15] == 1;
    proof {
        let got = d@.subrange(p as int, p + 16);
        if r {
            assert(got =~= title_bytes());
        } else if got == title_bytes() {
            assert forall|i: int| 0 <= i < 16 implies #[trigger] d@[p + i] == title_bytes()[i] by {
                assert(got[i] == d@[p + i]);
            }
            assert(d@[p + 0] == 75 && d@[p + 1] == 71 && d@[p + 2] == 68 && d@[p + 3] == 77);
            assert(d@[p + 4] == 32 && d@[p + 5] == 83 && d@[p + 6] == 69 && d@[p + 7] == 83);
            assert(d@[p + 8] == 83 && d@[p + 9] == 73 && d@[p + 10] == 79 && d@[p + 11] == 78);
            assert(d@[p + 12] == 0 && d@[p + 13] == 0 && d@[p + 14] == 0 && d@[p + 15] == 1);
        }
    }
    r
}

/// The size of the session in records, the count of huts on order, where the count of
/// saplings stands, the count, and where what the units are about begins.
fn find_state(d: &[u8], rpos: usize, rcount: usize, ecount: usize) -> (r: Option<
    (usize, usize, usize, usize, usize),
>)
    requires
        intact(d@),
        rpos == records_pos(d@),
        rcount == u32_at(d@, rpos as int),
        ecount == u32_at(d@, 40),
    ensures
        match r {
            Some(m) => {
                &&& has_state(d@)
                &&& m.0 == u32_at(d@, rpos + 20)
                &&& m.1 == u32_at(d@, rpos + 61)
                &&& m.2 == saplings_pos(d@)
                &&& m.3 == u32_at(d@, saplings_pos(d@))
                &&& m.4 == minds_start(d@)
            },
            None => !has_state(d@),
        },
{
    let len: usize = d.len();
    if rcount < 3 || !has_title(d, rpos + 4) {
        return None;
    }
    let records: usize = ru32(d, rpos + 20) as usize;
    if records > rcount {
        return None;
    }
    let end: usize = rpos + 4 + 8 * records;
    let at: usize = rpos + 28;
    if end < at || end - at < 37 {
        return None;
    }
    let ocount: u32 = ru32(d, at + 33);
    if ((end - at - 37) as u64) < 8 * ocount as u64 + 4 {
        return None;
    }
    let spos: usize = at + 37 + 8 * ocount as usize;
    let scount: u32 = ru32(d, spos);
    if ((end - spos - 4) as u64) < 12 * scount as u64 {
        return None;
    }
    let mpos: usize = spos + 4 + 12 * scount as usize;
    if !minds_there(d, mpos, ecount as u32, end) {
        return None;
    }
    Some((records, ocount as usize, spos, scount as usize, mpos))
}

fn read_spot(d: &[u8], p: usize) -> (r: Option<Coord>)
    requires
        p + 9 <= d@.len(),
    ensures
        r == spot_at(d@, p as int),
{
    if d[p] == 1 {
        Some((ri32(d, p + 1), ri32(d, p + 5)))
    } else {
        None
    }
}

fn read_mind(d: &[u8], p: usize, e: Entity) -> (r: Entity)
    requires
        p + 48 <= d@.len(),
        p + 48 + 8 * u32_at(d@, p + 44) <= d@.len(),
    ensures
        r@ == mind_at(d@, p as int, e@),
{
    let len: usize = d.len();
    let path: Vec<Coord> = read_tiles(d, p + 48, ru32(d, p + 44) as usize);
    let r: Entity = Entity {
        anim_time: rf32(d, p),
        harvest_timer: rf32(d, p + 4),
        repath: rf32(d, p + 8),
        target_node: read_spot(d, p + 12),
        mine_target: read_spot(d, p + 21),
        build_site: read_spot(d, p + 30),
        sheltered: d[p + 39] == 1,
        path_cursor: ru32(d, p + 40) as usize,
        path,
        ..e
    };
    assert(r@ =~= mind_at(d@, p as int, e@));
    r
}

/// What the fixed header holds, but for the name and the version.
struct Head {
    seed: i32,
    wood: u32,
    stone: u32,
    enemies_defeated: u32,
    units_lost: u32,
    mode: u8,
    priority: u8,
    gather: u8,
    cam: CamState,
    units: u32,
}

fn read_head(d: &[u8]) -> (r: Option<Head>)
    ensures
        r is Some == (d@.len() >= 44 && d@.take(5) == intro_bytes()),
        r matches Some(h) ==> {
            &&& h.seed == i32_at(d@, 5)
            &&& h.wood == u32_at(d@, 9)
            &&& h.stone == u32_at(d@, 13)
            &&& h.enemies_defeated == u32_at(d@, 17)
            &&& h.units_lost == u32_at(d@, 21)
            &&& h.mode == d@[25]
            &&& h.priority == d@[26]
            &&& h.gather == d@[27]
            &&& h.cam == cam_at(d@)
            &&& h.units == u32_at(d@, 40)
        },
{
    if !is_save(d) {
        return None;
    }
    let mut r: Reader = Reader { d, p: 5 };
    let seed: i32 = r.i32()?;
    let wood: u32 = r.u32()?;
    let stone: u32 = r.u32()?;
    let enemies_defeated: u32 = r.u32()?;
    let units_lost: u32 = r.u32()?;
    let mode: u8 = r.u8()?;
    let priority: u8 = r.u8()?;
    let gather: u8 = r.u8()?;
    let cam: CamState = CamState { cx: r.float()?, cy: r.float()?, view_height: r.float()? };
    let units: u32 = r.u32()?;
    Some(
        Head {
            seed,
            wood,
            stone,
            enemies_defeated,
            units_lost,
            mode,
            priority,
            gather,
            cam,
            units,
        },
    )
}

/// Where the counts of bridges and chunks stand, and the counts, if the bytes are
/// whole.
fn measure(d: &[u8], units: u32) -> (r: Option<(usize, usize, usize, usize, usize)>)
    requires
        d@.len() >= 44,
        d@.take(5) == intro_bytes(),
        units == u32_at(d@, 40),
    ensures
        match r {
            Some(m) => {
                &&& intact(d@)
                &&& m.0 == units
                &&& m.1 == records_pos(d@)
                &&& m.2 == u32_at(d@, records_pos(d@))
                &&& m.3 == chunks_pos(d@)
                &&& m.4 == u32_at(d@, chunks_pos(d@))
            },
            None => !intact(d@),
        },
{
    let len: u64 = d.len() as u64;
    let ecount: u64 = units as u64;
    let bpos: u64 = 44 + 20 * ecount;
    if len < bpos + 4 {
        return None;
    }
    let bcount: u64 = ru32(d, bpos as usize) as u64;
    let cpos: u64 = bpos + 4 + 8 * bcount;
    if len < cpos + 4 {
        return None;
    }
    let ccount: u64 = ru32(d, cpos as usize) as u64;
    let opos: u64 = cpos + 4 + ccount * 18440;
    if len < opos {
        return None;
    }
    Some((ecount as usize, bpos as usize, bcount as usize, cpos as usize, ccount as usize))
}

fn read_tiles(d: &[u8], p: usize, count: usize) -> (r: Vec<Coord>)
    requires
        p + 8 * count <= d@.len(),
    ensures
        r@ == Seq::new(count as nat, |k: int| tile_at(d@, p + k * 8)),
{
    let len: usize = d.len();
    let mut r: Vec<Coord> = Vec::new();
    let mut i: usize = 0;
    while i < count
        invariant
            i <= count,
            len == d@.len(),
            p + 8 * count <= len,
            r@ =~= Seq::new(i as nat, |k: int| tile_at(d@, p + k * 8)),
        decreases count - i,
    {
        r.push((ri32(d, p + i * 8), ri32(d, p + i * 8 + 4)));
        i = i + 1;
    }
    r
}

fn read_saplings(d: &[u8], p: usize, count: usize) -> (r: Vec<Sapling>)
    requires
        p + 12 * count <= d@.len(),
    ensures
        r@ == Seq::new(count as nat, |k: int| sapling_at(d@, p + k * 12)),
{
    let len: usize = d.len();
    let mut r: Vec<Sapling> = Vec::new();
    let mut i: usize = 0;
    while i < count
        invariant
            i <= count,
            len == d@.len(),
            p + 12 * count <= len,
            r@ =~= Seq::new(i as nat, |k: int| sapling_at(d@, p + k * 12)),
        decreases count - i,
    {
        let at: usize = p + i * 12;
        r.push(Sapling { tile: (ri32(d, at), ri32(d, at + 4)), grow: rf32(d, at + 8) });
        i = i + 1;
    }
    r
}

impl Game {
    /// Read a game back; nothing unless the bytes are a whole save of this version.
    pub fn from_bytes(data: &[u8]) -> (r: Option<(Game, CamState)>)
        ensures
            r is Some == intact(data@),
            r matches Some(pair) ==> pair.0.wf() && pair.0@ == game_at(data@) && pair.1 == cam_at(
                data@,
            ),
    {
        let head: Head = read_head(data)?;
        let (ecount, bpos, bcount, cpos, ccount) = match measure(data, head.units) {
            Some(m) => m,
            None => {
                return None;
            },
        };
        let ghost d = data@;
        let len: usize = data.len();
        let found: Option<(usize, usize, usize, usize, usize)> = find_state(
            data,
            bpos,
            bcount,
            ecount,
        );
        let marked: bool = found.is_some();
        let at: usize = if marked {
            bpos + 28
        } else {
            0
        };
        let mut build_mode: BuildMode = if head.mode == 1 {
            BuildMode::Bridge
        } else {
            BuildMode::House
        };
        let mut rally_point: Option<Vec2> = None;
        let mut hut_orders: Vec<Coord> = Vec::new();
        let mut saplings: Vec<Sapling> = Vec::new();
        let mut mpos: usize = 0;
        let mut skipped: usize = 0;
        if let Some(m) = found {
            let (records, ocount, spos, scount, start) = m;
            build_mode = mode_of(data[at - 4]);
            if data[at + 24] == 1 {
                rally_point = Some(Vec2 { x: rf32(data, at + 25), y: rf32(data, at + 29) });
            }
            hut_orders = read_tiles(data, at + 37, ocount);
            saplings = read_saplings(data, spos + 4, scount);
            mpos = start;
            skipped = records;
        }
        let ghost rest = Seq::new(ecount as nat, |k: int| entity_at(d, 44 + k * ENTITY_LEN));
        let ghost want = Seq::new(
            ecount as nat,
            |k: int|
                if marked {
                    mind_at(d, mind_pos(d, minds_start(d), k), rest[k])
                } else {
                    rest[k]
                },
        );
        let mut entities: Vec<Entity> = Vec::new();
        let mut i: usize = 0;
        while i < ecount
            invariant
                i <= ecount,
                d == data@,
                len == d.len(),
                44 + 20 * ecount <= len,
                rest == Seq::new(ecount as nat, |k: int| entity_at(d, 44 + k * ENTITY_LEN)),
                want == Seq::new(
                    ecount as nat,
                    |k: int|
                        if marked {
                            mind_at(d, mind_pos(d, minds_start(d), k), rest[k])
                        } else {
                            rest[k]
                        },
                ),
                marked ==> minds_fit(d, minds_start(d), ecount as int, session_end(d)),
                marked ==> minds_start(d) <= session_end(d) <= len,
                marked ==> mpos == mind_pos(d, minds_start(d), i as int),
                units_of(entities@) =~= want.take(i as int),
            decreases ecount - i,
        {
            let ghost before = units_of(entities@);
            let mut e: Entity = read_entity(data, 44 + i * 20);
            assert(e@ == rest[i as int]);
            if marked {
                proof {
                    lemma_fit_before(
                        d,
                        minds_start(d),
                        i + 1,
                        ecount as int,
                        session_end(d),
                    );
                }
                e = read_mind(data, mpos, e);
                mpos = mpos + 48 + 8 * ru32(data, mpos + 44) as usize;
            }
            assert(e@ == want[i as int]);
            entities.push(e);
            assert(units_of(entities@) =~= before.push(want[i as int]));
            i = i + 1;
        }
        assert(want.take(i as int) =~= want);
        let player_bridges: Vec<Coord> = read_tiles(
            data,
            bpos + 4 + 8 * skipped,
            bcount - skipped,
        );
        let mut chunks: Vec<(Coord, Chunk)> = Vec::new();
        let mut i: usize = 0;
        while i < ccount
            invariant
                i <= ccount,
                d == data@,
                cpos == chunks_pos(d),
                len == d.len(),
                cpos + 4 + ccount * 18440 <= len,
                all_whole(chunks@),
                chunks@.len() == i,
                forall|k: int|
                    0 <= k < i ==> (#[trigger] chunks@[k]).0 == tile_at(d, chunk_pos(d, k))
                        && chunks@[k].1@ == cells_at(d, chunk_pos(d, k)),
            decreases ccount - i,
        {
            let at: usize = cpos + 4 + i * 18440;
            let c: Coord = (ri32(data, at), ri32(data, at + 4));
            let chunk: Chunk = read_chunk(data, at);
            chunks.push((c, chunk));
            i = i + 1;
        }
        proof {
            assert(coords_of(chunks@) =~= coords_at(d));
            assert(cells_of(chunks@) =~= all_cells_at(d)) by {
                assert forall|k: int| 0 <= k < ccount implies cells_of(chunks@)[k]
                    == all_cells_at(d)[k] by {
                    assert(chunks@[k].1@ == cells_at(d, chunk_pos(d, k)));
                }
            }
        }
        // Rebuild the player-tile lists (houses, mines, huts) by scanning chunks.
        let player_house_tiles: Vec<Coord> = scan(&chunks, Layer::House);
        let cave_tiles: Vec<Coord> = scan(&chunks, Layer::Cave);
        let hut_tiles: Vec<Coord> = scan(&chunks, Layer::Hut);
        let seed: i32 = head.seed;
        let world: World = World::from_saved(seed, chunks);
        let game: Game = Game {
            world,
            entities,
            wood: head.wood,
            stone: head.stone,
            build_mode,
            priority: if head.priority == 1 {
                Priority::Military
            } else {
                Priority::Agriculture
            },
            gather_priority: if head.gather == 1 {
                GatherPriority::Wood
            } else if head.gather == 2 {
                GatherPriority::Stone
            } else {
                GatherPriority::Balanced
            },
            enemies_defeated: head.enemies_defeated,
            units_lost: head.units_lost,
            rally_point,
            player_house_tiles,
            cave_tiles,
            hut_tiles,
            hut_orders,
            saplings,
            player_bridges,
            enemy_spawn_timer: if marked {
                rf32(data, at)
            } else {
                F32 { bits: ENEMY_SPAWN_INTERVAL }
            },
            player_spawn_timer: if marked {
                rf32(data, at + 4)
            } else {
                F32 { bits: PLAYER_SPAWN_INTERVAL }
            },
            player_spawn_cycle: if marked {
                ru32(data, at + 8)
            } else {
                0
            },
            enemy_spawn_cycle: if marked {
                ru32(data, at + 12)
            } else {
                0
            },
            rng: if marked {
                Rng::resume(ru64(data, at + 16))
            } else {
                Rng::new((seed as u64) ^ GAME_SALT)
            },
        };
        proof {
            lemma_seed_kept(empty_world(seed), coords_at(d), all_cells_at(d));
            assert(game@ =~= game_at(d));
        }
        Some((game, head.cam))
    }
}

proof fn lemma_seed_kept(w: WorldView, coords: Seq<Coord>, cells: Seq<Seq<Cell>>)
    ensures
        w.with_chunks(coords, cells).seed == w.seed,
        w.with_chunks(coords, cells).enemy_house_tiles == w.enemy_house_tiles,
    decreases coords.len(),
{
    if coords.len() > 0 {
        lemma_seed_kept(w, coords.drop_last(), cells.drop_last());
    }
}

} // verus!
