//! Tiles and the square chunks they are stored in.

use vstd::prelude::*;
use crate::float::F32;

verus! {

/// Chunk edge length in tiles.
pub const CHUNK: i32 = 32;

/// Number of tiles in a chunk.
pub const CHUNK_TILES: usize = 1024;

#[derive(Clone, Copy, PartialEq, Eq, Structural, Debug)]
pub enum Tile {
    Water,
    Grass,
}

#[derive(Clone, Copy, PartialEq, Eq, Structural, Debug)]
pub enum Resource {
    Wood,
    Stone,
}

#[derive(Clone, Copy, PartialEq, Eq, Structural, Debug)]
pub struct Node {
    pub kind: Resource,
    pub amount: u32,
}

/// A defensive wall tile. `owner` is a faction tag (0 = player, 1 = enemy);
/// walls block the *other* faction and take a while to break down.
#[derive(Clone, Copy, PartialEq, Eq, Structural, Debug)]
pub struct Wall {
    pub owner: u8,
    pub hp: F32,
}

/// A shelter built from a tree: farmers of its owner duck inside.
#[derive(Clone, Copy, PartialEq, Eq, Structural, Debug)]
pub struct Hut {
    pub owner: u8,
    pub hp: F32,
    pub occupants: u8,
}

/// Owner value used by faction-agnostic queries so that *any* wall blocks.
pub const NO_OWNER: u8 = 255;

/// Everything there is on one tile.
#[derive(Clone, Copy, PartialEq, Eq, Structural, Debug)]
pub struct Cell {
    pub tile: Tile,
    pub node: Option<Node>,
    pub house: bool,
    pub enemy_house: bool,
    pub bridge: bool,
    pub wall: Option<Wall>,
    pub cave: bool,
    pub hut: Option<Hut>,
}

pub open spec fn bare_cell(tile: Tile) -> Cell {
    Cell {
        tile,
        node: None,
        house: false,
        enemy_house: false,
        bridge: false,
        wall: None,
        cave: false,
        hut: None,
    }
}

impl Cell {
    /// Does nothing stand here that a unit of `owner` must walk around, other
    /// than a resource node?
    pub open spec fn siege_walkable_spec(self, owner: u8) -> bool {
        &&& self.wall is Some ==> self.wall->0.owner == owner
        &&& self.bridge || (self.tile == Tile::Grass && !self.house && !self.enemy_house
            && !self.cave && self.hut is None)
    }

    pub open spec fn walkable_spec(self, owner: u8) -> bool {
        self.siege_walkable_spec(owner) && (self.bridge || self.node is None)
    }

    pub open spec fn open_grass_spec(self) -> bool {
        &&& self.tile == Tile::Grass
        &&& self.node is None
        &&& !self.house
        &&& !self.enemy_house
        &&& !self.bridge
        &&& self.wall is None
        &&& !self.cave
        &&& self.hut is None
    }

    pub open spec fn open_water_spec(self) -> bool {
        self.tile == Tile::Water && !self.bridge
    }

    pub fn siege_walkable(&self, owner: u8) -> (r: bool)
        ensures
            r == self.siege_walkable_spec(owner),
    {
        if let Some(w) = self.wall {
            if w.owner != owner {
                return false;
            }
        }
        if self.bridge {
            return true;
        }
        self.tile == Tile::Grass && !self.house && !self.enemy_house && !self.cave
            && self.hut.is_none()
    }

    pub fn walkable(&self, owner: u8) -> (r: bool)
        ensures
            r == self.walkable_spec(owner),
    {
        self.siege_walkable(owner) && (self.bridge || self.node.is_none())
    }

    pub fn open_grass(&self) -> (r: bool)
        ensures
            r == self.open_grass_spec(),
    {
        self.tile == Tile::Grass && self.node.is_none() && !self.house && !self.enemy_house
            && !self.bridge && self.wall.is_none() && !self.cave && self.hut.is_none()
    }

    pub fn open_water(&self) -> (r: bool)
        ensures
            r == self.open_water_spec(),
    {
        self.tile == Tile::Water && !self.bridge
    }
}

/// A wall stops everyone but its owner, to whom it is no more than a gate: for the
/// owner the tile is as walkable as it would be without the wall.
pub proof fn law_walls_are_gates(c: Cell, owner: u8)
    requires
        c.wall is Some,
    ensures
        c.wall->0.owner != owner ==> !c.walkable_spec(owner) && !c.siege_walkable_spec(owner),
        c.wall->0.owner == owner ==> c.walkable_spec(owner) == (Cell {
            wall: None,
            ..c
        }).walkable_spec(owner),
{
}

/// One square of the world, row by row.
pub struct Chunk {
    pub tiles: Vec<Tile>,
    pub nodes: Vec<Option<Node>>,
    pub houses: Vec<bool>,
    pub enemy_houses: Vec<bool>,
    pub bridges: Vec<bool>,
    pub walls: Vec<Option<Wall>>,
    pub caves: Vec<bool>,
    pub huts: Vec<Option<Hut>>,
}

impl Chunk {
    /// All eight layers cover the whole square.
    pub open spec fn wf(&self) -> bool {
        &&& self.tiles@.len() == CHUNK_TILES
        &&& self.nodes@.len() == CHUNK_TILES
        &&& self.houses@.len() == CHUNK_TILES
        &&& self.enemy_houses@.len() == CHUNK_TILES
        &&& self.bridges@.len() == CHUNK_TILES
        &&& self.walls@.len() == CHUNK_TILES
        &&& self.caves@.len() == CHUNK_TILES
        &&& self.huts@.len() == CHUNK_TILES
    }

    pub open spec fn cell_spec(&self, i: int) -> Cell {
        Cell {
            tile: self.tiles@[i],
            node: self.nodes@[i],
            house: self.houses@[i],
            enemy_house: self.enemy_houses@[i],
            bridge: self.bridges@[i],
            wall: self.walls@[i],
            cave: self.caves@[i],
            hut: self.huts@[i],
        }
    }

    pub fn cell(&self, i: usize) -> (r: Cell)
        requires
            self.wf(),
            i < CHUNK_TILES,
        ensures
            r == self@[i as int],
    {
        Cell {
            tile: self.tiles[i],
            node: self.nodes[i],
            house: self.houses[i],
            enemy_house: self.enemy_houses[i],
            bridge: self.bridges[i],
            wall: self.walls[i],
            cave: self.caves[i],
            hut: self.huts[i],
        }
    }

    pub fn set_cell(&mut self, i: usize, c: Cell)
        requires
            old(self).wf(),
            i < CHUNK_TILES,
        ensures
            final(self).wf(),
            final(self)@ == old(self)@.update(i as int, c),
    {
        self.tiles[i] = c.tile;
        self.nodes[i] = c.node;
        self.houses[i] = c.house;
        self.enemy_houses[i] = c.enemy_house;
        self.bridges[i] = c.bridge;
        self.walls[i] = c.wall;
        self.caves[i] = c.cave;
        self.huts[i] = c.hut;
        assert(self@ =~= old(self)@.update(i as int, c));
    }

    /// A chunk of bare grass.
    pub fn blank() -> (r: Chunk)
        ensures
            r.wf(),
            r@ == Seq::new(CHUNK_TILES as nat, |i: int| bare_cell(Tile::Grass)),
    {
        let r: Chunk = Chunk {
            tiles: vec![Tile::Grass; CHUNK_TILES],
            nodes: vec![None; CHUNK_TILES],
            houses: vec![false; CHUNK_TILES],
            enemy_houses: vec![false; CHUNK_TILES],
            bridges: vec![false; CHUNK_TILES],
            walls: vec![None; CHUNK_TILES],
            caves: vec![false; CHUNK_TILES],
            huts: vec![None; CHUNK_TILES],
        };
        assert(r@ =~= Seq::new(CHUNK_TILES as nat, |i: int| bare_cell(Tile::Grass)));
        r
    }
}

impl View for Chunk {
    type V = Seq<Cell>;

    open spec fn view(&self) -> Seq<Cell> {
        Seq::new(CHUNK_TILES as nat, |i: int| self.cell_spec(i))
    }
}

pub open spec fn chunk_of_spec(v: int) -> int {
    v / CHUNK as int
}

pub open spec fn local_of_spec(v: int) -> int {
    v % CHUNK as int
}

/// Chunk that a tile coordinate falls in.
pub fn chunk_of(v: i32) -> (r: i32)
    ensures
        r == chunk_of_spec(v as int),
        -0x0400_0000 <= r < 0x0400_0000,
{
    if v >= 0 {
        v / CHUNK
    } else {
        -1 - (-1 - v) / CHUNK
    }
}

/// Place of a tile coordinate within its chunk.
pub fn local_of(v: i32) -> (r: i32)
    ensures
        r == local_of_spec(v as int),
        0 <= r < CHUNK,
{
    v - chunk_of(v) * CHUNK
}

pub open spec fn li_spec(lx: int, ly: int) -> int {
    ly * CHUNK + lx
}

/// Index of a local tile in a chunk's layers.
pub fn li(lx: i32, ly: i32) -> (r: usize)
    requires
        0 <= lx < CHUNK,
        0 <= ly < CHUNK,
    ensures
        r == li_spec(lx as int, ly as int),
        r < CHUNK_TILES,
{
    (ly * CHUNK + lx) as usize
}

/// Coordinate of place `l` in chunk `c` (wrapping beyond the last chunk).
pub open spec fn coord_spec(c: i32, l: i32) -> i32 {
    c.wrapping_mul(CHUNK).wrapping_add(l)
}

pub fn coord(c: i32, l: i32) -> (r: i32)
    ensures
        r == coord_spec(c, l),
{
    c.wrapping_mul(CHUNK).wrapping_add(l)
}

/// Every tile is found again: its chunk and place give its coordinate back.
pub proof fn lemma_coord_of_parts(v: i32)
    ensures
        coord_spec(chunk_of_spec(v as int) as i32, local_of_spec(v as int) as i32) == v,
{
}

/// Tile coordinates of place `i` of chunk `(cx, cy)`.
pub open spec fn place_spec(cx: i32, cy: i32, i: int) -> (i32, i32) {
    (coord_spec(cx, (i % CHUNK as int) as i32), coord_spec(cy, (i / CHUNK as int) as i32))
}

pub fn place(cx: i32, cy: i32, i: usize) -> (r: (i32, i32))
    requires
        i < CHUNK_TILES,
    ensures
        r == place_spec(cx, cy, i as int),
{
    (coord(cx, (i % 32) as i32), coord(cy, (i / 32) as i32))
}

} // verus!
