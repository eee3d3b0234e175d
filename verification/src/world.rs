//! Chunked, effectively-infinite tile world. Chunks are generated on demand
//! from the seed; player edits (buildings, bridges, depleted resources) live in
//! the loaded chunks and are what gets written to save files.

use std::collections::HashMap;
use vstd::prelude::*;
use crate::chunk::{
    chunk_of, chunk_of_spec, lemma_coord_of_parts, li, li_spec, local_of, local_of_spec, place,
    place_spec, Cell, Chunk, Hut, Node, Resource, Tile, Wall, CHUNK_TILES, NO_OWNER,
};
use crate::float::F32;
use crate::grid::{
    key, key_spec, lemma_key_injective, offset, offset_spec, shift, shift_spec, within_spec,
};
use crate::terrain::{chunk_spec, generate_chunk};
use crate::vec2::Coord;

verus! {

broadcast use vstd::std_specs::hash::group_hash_axioms;

/// A world as plain data: the loaded chunks in the order they were loaded, and
/// the tiles listed as enemy houses.
#[verifier::ext_equal]
pub struct WorldView {
    pub seed: i32,
    pub coords: Seq<Coord>,
    pub cells: Seq<Seq<Cell>>,
    pub enemy_house_tiles: Seq<Coord>,
}

/// Chunk coordinates of a tile.
pub open spec fn chunk_coord(x: i32, y: i32) -> Coord {
    (chunk_of_spec(x as int) as i32, chunk_of_spec(y as int) as i32)
}

/// Place of a tile in its chunk.
pub open spec fn local_index(x: i32, y: i32) -> int {
    li_spec(local_of_spec(x as int), local_of_spec(y as int))
}

impl WorldView {
    pub open spec fn wf(self) -> bool {
        &&& self.coords.no_duplicates()
        &&& self.cells.len() == self.coords.len()
        &&& forall|i: int|
            0 <= i < self.cells.len() ==> (#[trigger] self.cells[i]).len() == CHUNK_TILES
    }

    pub open spec fn loaded(self, x: i32, y: i32) -> bool {
        self.coords.contains(chunk_coord(x, y))
    }

    /// What is on a tile; nothing is known of tiles that are not loaded.
    pub open spec fn cell(self, x: i32, y: i32) -> Option<Cell> {
        if self.loaded(x, y) {
            Some(self.cells[self.coords.index_of(chunk_coord(x, y))][local_index(x, y)])
        } else {
            None
        }
    }

    /// The world with one loaded tile replaced.
    pub open spec fn with_cell(self, x: i32, y: i32, c: Cell) -> WorldView {
        let i = self.coords.index_of(chunk_coord(x, y));
        WorldView {
            cells: self.cells.update(i, self.cells[i].update(local_index(x, y), c)),
            ..self
        }
    }

    /// The world with one chunk loaded: as it was generated, unless it was
    /// already there.
    pub open spec fn ensured(self, c: Coord) -> WorldView {
        if self.coords.contains(c) {
            self
        } else {
            WorldView {
                coords: self.coords.push(c),
                cells: self.cells.push(chunk_spec(self.seed, c.0, c.1)),
                ..self
            }
        }
    }

    /// The world with a tile's chunk loaded.
    pub open spec fn with_tile(self, x: i32, y: i32) -> WorldView {
        self.ensured(chunk_coord(x, y))
    }

    /// Load chunks `cx0 ..= cx1` of a row.
    pub open spec fn ensured_row(self, cy: int, cx0: int, cx1: int) -> WorldView
        decreases cx1 - cx0 + 1,
    {
        if cx0 > cx1 {
            self
        } else {
            self.ensured((cx0 as i32, cy as i32)).ensured_row(cy, cx0 + 1, cx1)
        }
    }

    /// Load the chunks of rows `cy0 ..= cy1`.
    pub open spec fn ensured_rows(self, cy0: int, cy1: int, cx0: int, cx1: int) -> WorldView
        decreases cy1 - cy0 + 1,
    {
        if cy0 > cy1 {
            self
        } else {
            self.ensured_row(cy0, cx0, cx1).ensured_rows(cy0 + 1, cy1, cx0, cx1)
        }
    }

    /// The world with every chunk loaded that overlaps a tile rectangle.
    pub open spec fn ensured_region(
        self,
        min_x: i32,
        min_y: i32,
        max_x: i32,
        max_y: i32,
    ) -> WorldView {
        self.ensured_rows(
            chunk_of_spec(min_y as int),
            chunk_of_spec(max_y as int),
            chunk_of_spec(min_x as int),
            chunk_of_spec(max_x as int),
        )
    }

    /// The tile's cell, where it is loaded.
    pub open spec fn at(self, x: i32, y: i32) -> Cell {
        self.cell(x, y)->0
    }

    pub open spec fn tile(self, x: i32, y: i32) -> Tile {
        match self.cell(x, y) {
            Some(c) => c.tile,
            None => Tile::Water,
        }
    }

    pub open spec fn node(self, x: i32, y: i32) -> Option<Node> {
        match self.cell(x, y) {
            Some(c) => c.node,
            None => None,
        }
    }

    pub open spec fn is_house(self, x: i32, y: i32) -> bool {
        self.cell(x, y) is Some && self.at(x, y).house
    }

    pub open spec fn is_enemy_house(self, x: i32, y: i32) -> bool {
        self.cell(x, y) is Some && self.at(x, y).enemy_house
    }

    pub open spec fn is_bridge(self, x: i32, y: i32) -> bool {
        self.cell(x, y) is Some && self.at(x, y).bridge
    }

    pub open spec fn is_cave(self, x: i32, y: i32) -> bool {
        self.cell(x, y) is Some && self.at(x, y).cave
    }

    pub open spec fn wall(self, x: i32, y: i32) -> Option<Wall> {
        match self.cell(x, y) {
            Some(c) => c.wall,
            None => None,
        }
    }

    pub open spec fn hut(self, x: i32, y: i32) -> Option<Hut> {
        match self.cell(x, y) {
            Some(c) => c.hut,
            None => None,
        }
    }

    pub open spec fn walkable_for(self, owner: u8, x: i32, y: i32) -> bool {
        self.cell(x, y) is Some && self.at(x, y).walkable_spec(owner)
    }

    pub open spec fn walkable_for_siege(self, owner: u8, x: i32, y: i32) -> bool {
        self.cell(x, y) is Some && self.at(x, y).siege_walkable_spec(owner)
    }

    pub open spec fn is_open_grass(self, x: i32, y: i32) -> bool {
        self.cell(x, y) is Some && self.at(x, y).open_grass_spec()
    }

    pub open spec fn is_open_water(self, x: i32, y: i32) -> bool {
        self.cell(x, y) is Some && self.at(x, y).open_water_spec()
    }

    // --- edits; a setter loads the tile's chunk first -----------------------

    pub open spec fn set_house(self, x: i32, y: i32, v: bool) -> WorldView {
        let w = self.with_tile(x, y);
        w.with_cell(x, y, Cell { house: v, ..w.at(x, y) })
    }

    /// A house tile handed to a faction (0 = player, any other = enemy).
    pub open spec fn convert_house(self, x: i32, y: i32, to_owner: u8) -> WorldView {
        let w = self.with_tile(x, y);
        w.with_cell(
            x,
            y,
            Cell { house: to_owner == 0, enemy_house: to_owner != 0, ..w.at(x, y) },
        )
    }

    pub open spec fn set_bridge(self, x: i32, y: i32, v: bool) -> WorldView {
        let w = self.with_tile(x, y);
        w.with_cell(x, y, Cell { bridge: v, ..w.at(x, y) })
    }

    /// A tile made solid ground.
    pub open spec fn raise_land(self, x: i32, y: i32) -> WorldView {
        let w = self.with_tile(x, y);
        w.with_cell(x, y, Cell { tile: Tile::Grass, bridge: false, ..w.at(x, y) })
    }

    pub open spec fn set_cave(self, x: i32, y: i32, v: bool) -> WorldView {
        let w = self.with_tile(x, y);
        w.with_cell(x, y, Cell { cave: v, ..w.at(x, y) })
    }

    pub open spec fn set_wall(self, x: i32, y: i32, owner: u8, hp: F32) -> WorldView {
        let w = self.with_tile(x, y);
        w.with_cell(x, y, Cell { wall: Some(Wall { owner, hp }), ..w.at(x, y) })
    }

    /// A fresh, empty hut takes the place of any node on the tile.
    pub open spec fn set_hut(self, x: i32, y: i32, owner: u8, hp: F32) -> WorldView {
        let w = self.with_tile(x, y);
        w.with_cell(
            x,
            y,
            Cell { node: None, hut: Some(Hut { owner, hp, occupants: 0 }), ..w.at(x, y) },
        )
    }

    pub open spec fn set_node(self, x: i32, y: i32, kind: Resource, amount: u32) -> WorldView {
        let w = self.with_tile(x, y);
        w.with_cell(x, y, Cell { node: Some(Node { kind, amount }), ..w.at(x, y) })
    }

    pub open spec fn clear_node(self, x: i32, y: i32) -> WorldView {
        if self.loaded(x, y) {
            self.with_cell(x, y, Cell { node: None, ..self.at(x, y) })
        } else {
            self
        }
    }

    /// One unit taken from a node; the last one takes the node with it.
    pub open spec fn deplete_node(self, x: i32, y: i32) -> WorldView {
        match self.node(x, y) {
            Some(n) => self.with_cell(
                x,
                y,
                Cell {
                    node: if n.amount <= 1 {
                        None
                    } else {
                        Some(Node { amount: (n.amount - 1) as u32, ..n })
                    },
                    ..self.at(x, y)
                },
            ),
            None => self,
        }
    }

    /// A wall with that much less left, or gone when nothing is left.
    pub open spec fn damage_wall(self, x: i32, y: i32, dmg: F32) -> WorldView {
        match self.wall(x, y) {
            Some(w) => self.with_cell(
                x,
                y,
                Cell {
                    wall: if w.hp.sub_spec(dmg).le_spec(F32 { bits: 0 }) {
                        None
                    } else {
                        Some(Wall { hp: w.hp.sub_spec(dmg), ..w })
                    },
                    ..self.at(x, y)
                },
            ),
            None => self,
        }
    }

    pub open spec fn wall_falls(self, x: i32, y: i32, dmg: F32) -> bool {
        self.wall(x, y) is Some && self.wall(x, y)->0.hp.sub_spec(dmg).le_spec(F32 { bits: 0 })
    }

    /// A hut with that much less left, or gone when nothing is left.
    pub open spec fn damage_hut(self, x: i32, y: i32, dmg: F32) -> WorldView {
        match self.hut(x, y) {
            Some(h) => self.with_cell(
                x,
                y,
                Cell {
                    hut: if h.hp.sub_spec(dmg).le_spec(F32 { bits: 0 }) {
                        None
                    } else {
                        Some(Hut { hp: h.hp.sub_spec(dmg), ..h })
                    },
                    ..self.at(x, y)
                },
            ),
            None => self,
        }
    }

    /// The hut that the blow brings down, as it was left.
    pub open spec fn hut_falls(self, x: i32, y: i32, dmg: F32) -> Option<Hut> {
        match self.hut(x, y) {
            Some(h) => if h.hp.sub_spec(dmg).le_spec(F32 { bits: 0 }) {
                Some(Hut { hp: h.hp.sub_spec(dmg), ..h })
            } else {
                None
            },
            None => None,
        }
    }

    /// A hut with a different number of occupants.
    pub open spec fn with_occupants(self, x: i32, y: i32, n: u8) -> WorldView {
        match self.hut(x, y) {
            Some(h) => self.with_cell(
                x,
                y,
                Cell { hut: Some(Hut { occupants: n, ..h }), ..self.at(x, y) },
            ),
            None => self,
        }
    }

    /// What a tile becomes when the walls of `from` near `center` change hands.
    pub open spec fn reowned_cell(
        self,
        i: int,
        j: int,
        center: Coord,
        radius: int,
        from: u8,
        to: u8,
    ) -> Cell {
        let c = self.cells[i][j];
        let t = place_spec(self.coords[i].0, self.coords[i].1, j);
        if chunk_coord(t.0, t.1) == self.coords[i] && within_spec(t, center, radius)
            && c.wall is Some && c.wall->0.owner == from {
            Cell { wall: Some(Wall { owner: to, hp: c.wall->0.hp }), ..c }
        } else {
            c
        }
    }

    /// Every wall of `from` within `radius` of the tile handed over to `to`.
    pub open spec fn reown_walls_near(
        self,
        x: i32,
        y: i32,
        radius: int,
        from: u8,
        to: u8,
    ) -> WorldView {
        WorldView {
            cells: Seq::new(
                self.cells.len(),
                |i: int|
                    Seq::new(
                        self.cells[i].len(),
                        |j: int| self.reowned_cell(i, j, (x, y), radius, from, to),
                    ),
            ),
            ..self
        }
    }

    /// One more enemy house, on a tile cleared for it.
    pub open spec fn with_camp_house(self, t: Coord) -> WorldView {
        let w = self.with_cell(
            t.0,
            t.1,
            Cell { node: None, enemy_house: true, ..self.at(t.0, t.1) },
        );
        WorldView { enemy_house_tiles: w.enemy_house_tiles.push(t), ..w }
    }

    /// A camp grown spot by spot from `k` on, with `left` houses still to place.
    pub open spec fn camp_from(self, center: Coord, k: int, left: int) -> WorldView
        decreases 9 - k,
    {
        if k >= 9 || left <= 0 {
            self
        } else {
            match camp_spot(center, k) {
                Some(t) => if self.tile(t.0, t.1) == Tile::Grass {
                    self.with_camp_house(t).camp_from(center, k + 1, left - 1)
                } else {
                    self.camp_from(center, k + 1, left)
                },
                None => self.camp_from(center, k + 1, left),
            }
        }
    }

    pub open spec fn plant_camp(self, center: Coord, count: int) -> WorldView {
        self.ensured_region(
            shift_spec(center.0, -6),
            shift_spec(center.1, -6),
            shift_spec(center.0, 6),
            shift_spec(center.1, 6),
        ).camp_from(center, 0, count)
    }

    /// The world with one chunk put in, in place of any at its coordinates.
    pub open spec fn with_chunk(self, c: Coord, cells: Seq<Cell>) -> WorldView {
        if self.coords.contains(c) {
            WorldView { cells: self.cells.update(self.coords.index_of(c), cells), ..self }
        } else {
            WorldView { coords: self.coords.push(c), cells: self.cells.push(cells), ..self }
        }
    }

    pub open spec fn with_chunks(self, coords: Seq<Coord>, cells: Seq<Seq<Cell>>) -> WorldView
        decreases coords.len(),
    {
        if coords.len() == 0 {
            self
        } else {
            self.with_chunks(coords.drop_last(), cells.drop_last()).with_chunk(
                coords.last(),
                cells.last(),
            )
        }
    }

    /// The world with its list of enemy houses made anew.
    pub open spec fn rescanned(self) -> WorldView {
        WorldView {
            enemy_house_tiles: tiles_with(self.coords, self.cells, Layer::EnemyHouse),
            ..self
        }
    }
}

/// The nine spots of a camp: a three by three lattice, three tiles apart.
pub open spec fn camp_spot(center: Coord, k: int) -> Option<Coord> {
    offset_spec(center, (k % 3 - 1) * 3, (k / 3 - 1) * 3)
}

/// A kind of building to look for.
#[derive(Clone, Copy, PartialEq, Eq, Structural, Debug)]
pub enum Layer {
    House,
    EnemyHouse,
    Cave,
    Hut,
}

impl Layer {
    pub open spec fn on_spec(self, c: Cell) -> bool {
        match self {
            Layer::House => c.house,
            Layer::EnemyHouse => c.enemy_house,
            Layer::Cave => c.cave,
            Layer::Hut => c.hut is Some,
        }
    }

    pub fn on(self, c: &Cell) -> (r: bool)
        ensures
            r == self.on_spec(*c),
    {
        match self {
            Layer::House => c.house,
            Layer::EnemyHouse => c.enemy_house,
            Layer::Cave => c.cave,
            Layer::Hut => c.hut.is_some(),
        }
    }
}

/// Those of the first `n` tiles of a chunk that hold the building.
pub open spec fn chunk_tiles_with(c: Coord, cells: Seq<Cell>, layer: Layer, n: int) -> Seq<Coord>
    decreases n,
{
    if n <= 0 {
        Seq::empty()
    } else {
        let before = chunk_tiles_with(c, cells, layer, n - 1);
        if layer.on_spec(cells[n - 1]) {
            before.push(place_spec(c.0, c.1, n - 1))
        } else {
            before
        }
    }
}

/// The tiles that hold the building, chunk by chunk and row by row.
pub open spec fn tiles_with(coords: Seq<Coord>, cells: Seq<Seq<Cell>>, layer: Layer) -> Seq<Coord>
    decreases coords.len(),
{
    if coords.len() == 0 {
        Seq::empty()
    } else {
        tiles_with(coords.drop_last(), cells.drop_last(), layer) + chunk_tiles_with(
            coords.last(),
            cells.last(),
            layer,
            CHUNK_TILES as int,
        )
    }
}

pub open spec fn coords_of(chunks: Seq<(Coord, Chunk)>) -> Seq<Coord> {
    Seq::new(chunks.len(), |i: int| chunks[i].0)
}

pub open spec fn cells_of(chunks: Seq<(Coord, Chunk)>) -> Seq<Seq<Cell>> {
    Seq::new(chunks.len(), |i: int| chunks[i].1@)
}

pub open spec fn all_whole(chunks: Seq<(Coord, Chunk)>) -> bool {
    forall|i: int| 0 <= i < chunks.len() ==> (#[trigger] chunks[i]).1.wf()
}

/// The tiles that hold a building, chunk by chunk and row by row.
pub fn scan(chunks: &Vec<(Coord, Chunk)>, layer: Layer) -> (r: Vec<Coord>)
    requires
        all_whole(chunks@),
    ensures
        r@ == tiles_with(coords_of(chunks@), cells_of(chunks@), layer),
{
    let mut out: Vec<Coord> = Vec::new();
    let mut k: usize = 0;
    while k < chunks.len()
        invariant
            k <= chunks.len(),
            all_whole(chunks@),
            out@ == tiles_with(
                coords_of(chunks@).take(k as int),
                cells_of(chunks@).take(k as int),
                layer,
            ),
        decreases chunks.len() - k,
    {
        let ghost before = out@;
        let c: Coord = chunks[k].0;
        let mut i: usize = 0;
        while i < CHUNK_TILES
            invariant
                i <= CHUNK_TILES,
                k < chunks.len(),
                c == chunks@[k as int].0,
                all_whole(chunks@),
                out@ == before + chunk_tiles_with(c, chunks@[k as int].1@, layer, i as int),
            decreases CHUNK_TILES - i,
        {
            assert(chunks@[k as int].1.wf());
            let cell: Cell = chunks[k].1.cell(i);
            if layer.on(&cell) {
                out.push(place(c.0, c.1, i));
            }
            assert(out@ =~= before + chunk_tiles_with(c, chunks@[k as int].1@, layer, i + 1));
            i = i + 1;
        }
        proof {
            let ca = coords_of(chunks@).take(k + 1);
            let ce = cells_of(chunks@).take(k + 1);
            assert(ca.drop_last() =~= coords_of(chunks@).take(k as int));
            assert(ce.drop_last() =~= cells_of(chunks@).take(k as int));
        }
        k = k + 1;
    }
    proof {
        assert(coords_of(chunks@).take(k as int) =~= coords_of(chunks@));
        assert(cells_of(chunks@).take(k as int) =~= cells_of(chunks@));
    }
    out
}

pub struct World {
    seed: i32,
    chunks: Vec<(Coord, Chunk)>,
    index: HashMap<u64, usize>,
    enemy_house_tiles: Vec<Coord>,
}

impl View for World {
    type V = WorldView;

    closed spec fn view(&self) -> WorldView {
        WorldView {
            seed: self.seed,
            coords: coords_of(self.chunks@),
            cells: cells_of(self.chunks@),
            enemy_house_tiles: self.enemy_house_tiles@,
        }
    }
}

impl World {
    /// Chunks are whole, no two share coordinates, and the index finds each.
    pub closed spec fn wf(&self) -> bool {
        &&& all_whole(self.chunks@)
        &&& forall|i: int, j: int|
            0 <= i < j < self.chunks@.len() ==> (#[trigger] self.chunks@[i]).0 != (
            #[trigger] self.chunks@[j]).0
        &&& forall|i: int|
            0 <= i < self.chunks@.len() ==> self.index@.contains_key(
                key_spec((#[trigger] self.chunks@[i]).0),
            ) && self.index@[key_spec(self.chunks@[i].0)] == i
        &&& forall|k: u64| #[trigger]
            self.index@.contains_key(k) ==> self.index@[k] < self.chunks@.len() && key_spec(
                self.chunks@[self.index@[k] as int].0,
            ) == k
    }

    /// The view of a world in order is in order.
    pub proof fn lemma_view_wf(&self)
        requires
            self.wf(),
        ensures
            self@.wf(),
    {
        assert forall|i: int, j: int| 0 <= i < j < self@.coords.len() implies self@.coords[i]
            != self@.coords[j] by {
            assert(self.chunks@[i].0 != self.chunks@[j].0);
        }
    }

    /// Global tiles occupied by enemy houses, for spawning.
    pub fn enemy_house_tiles(&self) -> (r: &Vec<Coord>)
        ensures
            r@ == self@.enemy_house_tiles,
    {
        &self.enemy_house_tiles
    }

    pub fn new(seed: i32) -> (r: World)
        ensures
            r.wf(),
            r@ == (WorldView {
                seed,
                coords: Seq::empty(),
                cells: Seq::empty(),
                enemy_house_tiles: Seq::empty(),
            }),
    {
        let r: World = World {
            seed,
            chunks: Vec::new(),
            index: HashMap::new(),
            enemy_house_tiles: Vec::new(),
        };
        assert(r@.coords =~= Seq::empty());
        assert(r@.cells =~= Seq::empty());
        r
    }

    pub fn seed(&self) -> (r: i32)
        ensures
            r == self@.seed,
    {
        self.seed
    }

    /// Index of a chunk in load order.
    fn find(&self, c: Coord) -> (r: Option<usize>)
        requires
            self.wf(),
        ensures
            match r {
                Some(i) => self@.coords.contains(c) && i == self@.coords.index_of(c) && i
                    < self.chunks@.len() && self.chunks@[i as int].0 == c,
                None => !self@.coords.contains(c),
            },
    {
        proof {
            self.lemma_view_wf();
        }
        match self.index.get(&key(c)) {
            Some(i) => {
                proof {
                    lemma_key_injective(self.chunks@[*i as int].0, c);
                    assert(self@.coords[*i as int] == c);
                }
                Some(*i)
            },
            None => {
                proof {
                    if self@.coords.contains(c) {
                        let j = self@.coords.index_of(c);
                        assert(self.chunks@[j].0 == c);
                    }
                }
                None
            },
        }
    }

    /// What is on a tile, if its chunk is loaded.
    pub fn cell(&self, x: i32, y: i32) -> (r: Option<Cell>)
        requires
            self.wf(),
        ensures
            r == self@.cell(x, y),
    {
        match self.find((chunk_of(x), chunk_of(y))) {
            Some(i) => Some(self.chunks[i].1.cell(li(local_of(x), local_of(y)))),
            None => None,
        }
    }

    /// Replace what is on a loaded tile.
    fn set_cell(&mut self, x: i32, y: i32, c: Cell)
        requires
            old(self).wf(),
            old(self)@.loaded(x, y),
        ensures
            final(self).wf(),
            final(self)@ == old(self)@.with_cell(x, y, c),
    {
        let found: Option<usize> = self.find((chunk_of(x), chunk_of(y)));
        if let Some(i) = found {
            let j: usize = li(local_of(x), local_of(y));
            self.chunks[i].1.set_cell(j, c);
            proof {
                assert(self@.coords =~= old(self)@.coords);
                assert(self@.cells =~= old(self)@.with_cell(x, y, c).cells);
            }
        }
    }

    /// Put a chunk in, in place of any at its coordinates.
    fn insert(&mut self, c: Coord, chunk: Chunk)
        requires
            old(self).wf(),
            chunk.wf(),
        ensures
            final(self).wf(),
            final(self)@ == old(self)@.with_chunk(c, chunk@),
    {
        let found: Option<usize> = self.find(c);
        match found {
            Some(i) => {
                self.chunks[i] = (c, chunk);
                assert(self@.coords =~= old(self)@.coords);
                assert(self@.cells =~= old(self)@.with_chunk(c, chunk@).cells);
            },
            None => {
                let i: usize = self.chunks.len();
                self.chunks.push((c, chunk));
                self.index.insert(key(c), i);
                proof {
                    assert(self@.coords =~= old(self)@.coords.push(c));
                    assert(self@.cells =~= old(self)@.cells.push(chunk@));
                    assert forall|j: int| 0 <= j < i implies (#[trigger] old(self).chunks@[j]).0
                        != c by {
                        assert(old(self)@.coords[j] == old(self).chunks@[j].0);
                    }
                    assert forall|j: int| 0 <= j < self.chunks@.len() implies self.index@.contains_key(
                        key_spec((#[trigger] self.chunks@[j]).0),
                    ) && self.index@[key_spec(self.chunks@[j].0)] == j by {
                        if j < i {
                            assert(self.chunks@[j] == old(self).chunks@[j]);
                            lemma_key_injective(self.chunks@[j].0, c);
                        }
                    }
                    assert forall|k: u64| #[trigger] self.index@.contains_key(k) implies self.index@[k]
                        < self.chunks@.len() && key_spec(self.chunks@[self.index@[k] as int].0)
                        == k by {
                        if k != key_spec(c) {
                            assert(old(self).index@.contains_key(k));
                        }
                    }
                }
            },
        }
    }

    /// Rebuild a world from a saved seed + explicit chunks (used on load).
    pub fn from_saved(seed: i32, chunks: Vec<(Coord, Chunk)>) -> (r: World)
        requires
            all_whole(chunks@),
        ensures
            r.wf(),
            r@ == (WorldView {
                seed,
                coords: Seq::empty(),
                cells: Seq::empty(),
                enemy_house_tiles: Seq::empty(),
            }).with_chunks(coords_of(chunks@), cells_of(chunks@)).rescanned(),
    {
        let ghost all = chunks@;
        let ghost blank = WorldView {
            seed,
            coords: Seq::empty(),
            cells: Seq::empty(),
            enemy_house_tiles: Seq::empty(),
        };
        let mut w: World = World::new(seed);
        let mut rest: Vec<(Coord, Chunk)> = Vec::new();
        let mut chunks: Vec<(Coord, Chunk)> = chunks;
        while chunks.len() > 0
            invariant
                all_whole(chunks@),
                all_whole(rest@),
                all =~= chunks@ + rest@.reverse(),
            decreases chunks.len(),
        {
            let ghost before = chunks@;
            let ghost rest_before = rest@;
            if let Some(c) = chunks.pop() {
                assert(c == before[before.len() - 1]);
                rest.push(c);
                assert(rest@.reverse() =~= seq![c] + rest_before.reverse());
            }
        }
        let ghost mut n: int = 0;
        while rest.len() > 0
            invariant
                all_whole(rest@),
                w.wf(),
                n + rest@.len() == all.len(),
                0 <= n,
                all.skip(n) =~= rest@.reverse(),
                w@ == blank.with_chunks(coords_of(all).take(n), cells_of(all).take(n)),
            decreases rest.len(),
        {
            let ghost before = rest@;
            if let Some(c) = rest.pop() {
                assert(c == before[before.len() - 1]);
                assert(all.skip(n)[0] == before.reverse()[0]);
                assert(all[n] == c);
                let (coord, chunk) = c;
                w.insert(coord, chunk);
                proof {
                    let ca = coords_of(all).take(n + 1);
                    let ce = cells_of(all).take(n + 1);
                    assert(ca.drop_last() =~= coords_of(all).take(n));
                    assert(ce.drop_last() =~= cells_of(all).take(n));
                    assert(all.skip(n + 1) =~= all.skip(n).skip(1));
                    assert(rest@.reverse() =~= before.reverse().skip(1));
                    n = n + 1;
                }
            }
        }
        proof {
            assert(coords_of(all).take(n) =~= coords_of(all));
            assert(cells_of(all).take(n) =~= cells_of(all));
        }
        w.rescan_enemy_houses();
        w
    }

    /// The loaded chunks, in load order.
    pub fn chunks_iter(&self) -> (r: &Vec<(Coord, Chunk)>)
        requires
            self.wf(),
        ensures
            all_whole(r@),
            coords_of(r@) == self@.coords,
            cells_of(r@) == self@.cells,
    {
        &self.chunks
    }

    pub fn rescan_enemy_houses(&mut self)
        requires
            old(self).wf(),
        ensures
            final(self).wf(),
            final(self)@ == old(self)@.rescanned(),
    {
        self.enemy_house_tiles = scan(&self.chunks, Layer::EnemyHouse);
    }

    /// Every hut in the loaded world.
    pub fn all_hut_tiles(&self) -> (r: Vec<Coord>)
        requires
            self.wf(),
        ensures
            r@ == tiles_with(self@.coords, self@.cells, Layer::Hut),
    {
        scan(&self.chunks, Layer::Hut)
    }

    // --- chunk management --------------------------------------------------

    /// Generate a chunk unless it is already loaded.
    pub fn ensure(&mut self, cx: i32, cy: i32)
        requires
            old(self).wf(),
        ensures
            final(self).wf(),
            final(self)@ == old(self)@.ensured((cx, cy)),
    {
        let found: Option<usize> = self.find((cx, cy));
        if found.is_none() {
            let chunk: Chunk = generate_chunk(self.seed, cx, cy);
            self.insert((cx, cy), chunk);
        }
    }

    /// Ensure every chunk overlapping the inclusive tile rectangle exists.
    pub fn ensure_region(&mut self, min_x: i32, min_y: i32, max_x: i32, max_y: i32)
        requires
            old(self).wf(),
        ensures
            final(self).wf(),
            final(self)@ == old(self)@.ensured_region(min_x, min_y, max_x, max_y),
    {
        let cy1: i32 = chunk_of(max_y);
        let cx0: i32 = chunk_of(min_x);
        let cx1: i32 = chunk_of(max_x);
        let ghost goal = self@.ensured_region(min_x, min_y, max_x, max_y);
        let mut cy: i32 = chunk_of(min_y);
        while cy <= cy1
            invariant
                self.wf(),
                -0x0400_0000 <= cy <= 0x0400_0000,
                cy1 < 0x0400_0000,
                -0x0400_0000 <= cx0 < 0x0400_0000,
                cx1 < 0x0400_0000,
                self@.ensured_rows(cy as int, cy1 as int, cx0 as int, cx1 as int) == goal,
            decreases cy1 + 1 - cy,
        {
            let ghost row = self@.ensured_row(cy as int, cx0 as int, cx1 as int);
            let mut cx: i32 = cx0;
            while cx <= cx1
                invariant
                    self.wf(),
                    -0x0400_0000 <= cx <= 0x0400_0000,
                    cx1 < 0x0400_0000,
                    self@.ensured_row(cy as int, cx as int, cx1 as int) == row,
                decreases cx1 + 1 - cx,
            {
                self.ensure(cx, cy);
                cx = cx + 1;
            }
            cy = cy + 1;
        }
    }

    // --- read accessors (default to water/empty for ungenerated chunks) ----

    pub fn tile(&self, x: i32, y: i32) -> (r: Tile)
        requires
            self.wf(),
        ensures
            r == self@.tile(x, y),
    {
        match self.cell(x, y) {
            Some(c) => c.tile,
            None => Tile::Water,
        }
    }

    pub fn node(&self, x: i32, y: i32) -> (r: Option<Node>)
        requires
            self.wf(),
        ensures
            r == self@.node(x, y),
    {
        match self.cell(x, y) {
            Some(c) => c.node,
            None => None,
        }
    }

    pub fn is_house(&self, x: i32, y: i32) -> (r: bool)
        requires
            self.wf(),
        ensures
            r == self@.is_house(x, y),
    {
        match self.cell(x, y) {
            Some(c) => c.house,
            None => false,
        }
    }

    pub fn is_enemy_house(&self, x: i32, y: i32) -> (r: bool)
        requires
            self.wf(),
        ensures
            r == self@.is_enemy_house(x, y),
    {
        match self.cell(x, y) {
            Some(c) => c.enemy_house,
            None => false,
        }
    }

    pub fn is_bridge(&self, x: i32, y: i32) -> (r: bool)
        requires
            self.wf(),
        ensures
            r == self@.is_bridge(x, y),
    {
        match self.cell(x, y) {
            Some(c) => c.bridge,
            None => false,
        }
    }

    pub fn is_cave(&self, x: i32, y: i32) -> (r: bool)
        requires
            self.wf(),
        ensures
            r == self@.is_cave(x, y),
    {
        match self.cell(x, y) {
            Some(c) => c.cave,
            None => false,
        }
    }

    pub fn wall(&self, x: i32, y: i32) -> (r: Option<Wall>)
        requires
            self.wf(),
        ensures
            r == self@.wall(x, y),
    {
        match self.cell(x, y) {
            Some(c) => c.wall,
            None => None,
        }
    }

    pub fn hut(&self, x: i32, y: i32) -> (r: Option<Hut>)
        requires
            self.wf(),
        ensures
            r == self@.hut(x, y),
    {
        match self.cell(x, y) {
            Some(c) => c.hut,
            None => None,
        }
    }

    /// Faction-agnostic walkability (any wall blocks).
    pub fn walkable(&self, x: i32, y: i32) -> (r: bool)
        requires
            self.wf(),
        ensures
            r == self@.walkable_for(NO_OWNER, x, y),
    {
        self.walkable_for(NO_OWNER, x, y)
    }

    /// Walkability for a given faction: a wall owned by *another* faction
    /// blocks, but you can pass through your own walls (they act as gates).
    pub fn walkable_for(&self, owner: u8, x: i32, y: i32) -> (r: bool)
        requires
            self.wf(),
        ensures
            r == self@.walkable_for(owner, x, y),
    {
        match self.cell(x, y) {
            Some(c) => c.walkable(owner),
            None => false,
        }
    }

    /// Like `walkable_for`, but resource nodes don't block (a knight will smash
    /// through them). Water, buildings and enemy walls still block.
    pub fn walkable_for_siege(&self, owner: u8, x: i32, y: i32) -> (r: bool)
        requires
            self.wf(),
        ensures
            r == self@.walkable_for_siege(owner, x, y),
    {
        match self.cell(x, y) {
            Some(c) => c.siege_walkable(owner),
            None => false,
        }
    }

    pub fn is_open_grass(&self, x: i32, y: i32) -> (r: bool)
        requires
            self.wf(),
        ensures
            r == self@.is_open_grass(x, y),
    {
        match self.cell(x, y) {
            Some(c) => c.open_grass(),
            None => false,
        }
    }

    pub fn is_open_water(&self, x: i32, y: i32) -> (r: bool)
        requires
            self.wf(),
        ensures
            r == self@.is_open_water(x, y),
    {
        match self.cell(x, y) {
            Some(c) => c.open_water(),
            None => false,
        }
    }

    // --- edits (ensure the chunk exists first) -----------------------------

    /// Load a tile's chunk and read the tile.
    fn touch(&mut self, x: i32, y: i32) -> (r: Cell)
        requires
            old(self).wf(),
        ensures
            final(self).wf(),
            final(self)@ == old(self)@.with_tile(x, y),
            final(self)@.loaded(x, y),
            r == final(self)@.at(x, y),
    {
        self.ensure(chunk_of(x), chunk_of(y));
        proof {
            let c = chunk_coord(x, y);
            if !old(self)@.coords.contains(c) {
                assert(self@.coords[old(self)@.coords.len() as int] == c);
            }
        }
        match self.cell(x, y) {
            Some(c) => c,
            None => Cell {
                tile: Tile::Water,
                node: None,
                house: false,
                enemy_house: false,
                bridge: false,
                wall: None,
                cave: false,
                hut: None,
            },
        }
    }

    /// Put up or pull down a player house.
    pub fn set_house(&mut self, x: i32, y: i32, v: bool)
        requires
            old(self).wf(),
        ensures
            final(self).wf(),
            final(self)@ == old(self)@.set_house(x, y, v),
    {
        let c: Cell = self.touch(x, y);
        self.set_cell(x, y, Cell { house: v, ..c });
    }

    /// Convert a house tile to a faction (0 = player, 1 = enemy). Used on capture.
    pub fn convert_house(&mut self, x: i32, y: i32, to_owner: u8)
        requires
            old(self).wf(),
        ensures
            final(self).wf(),
            final(self)@ == old(self)@.convert_house(x, y, to_owner),
    {
        let c: Cell = self.touch(x, y);
        self.set_cell(x, y, Cell { house: to_owner == 0, enemy_house: to_owner != 0, ..c });
    }

    /// Lay or lift a bridge.
    pub fn set_bridge(&mut self, x: i32, y: i32, v: bool)
        requires
            old(self).wf(),
        ensures
            final(self).wf(),
            final(self)@ == old(self)@.set_bridge(x, y, v),
    {
        let c: Cell = self.touch(x, y);
        self.set_cell(x, y, Cell { bridge: v, ..c });
    }

    /// Make a tile solid ground.
    pub fn raise_land(&mut self, x: i32, y: i32)
        requires
            old(self).wf(),
        ensures
            final(self).wf(),
            final(self)@ == old(self)@.raise_land(x, y),
    {
        let c: Cell = self.touch(x, y);
        self.set_cell(x, y, Cell { tile: Tile::Grass, bridge: false, ..c });
    }

    /// Dig or fill in a mine.
    pub fn set_cave(&mut self, x: i32, y: i32, v: bool)
        requires
            old(self).wf(),
        ensures
            final(self).wf(),
            final(self)@ == old(self)@.set_cave(x, y, v),
    {
        let c: Cell = self.touch(x, y);
        self.set_cell(x, y, Cell { cave: v, ..c });
    }

    /// Raise a wall.
    pub fn set_wall(&mut self, x: i32, y: i32, owner: u8, hp: F32)
        requires
            old(self).wf(),
        ensures
            final(self).wf(),
            final(self)@ == old(self)@.set_wall(x, y, owner, hp),
    {
        let c: Cell = self.touch(x, y);
        self.set_cell(x, y, Cell { wall: Some(Wall { owner, hp }), ..c });
    }

    /// Put an empty hut in the place of whatever grows on the tile.
    pub fn set_hut(&mut self, x: i32, y: i32, owner: u8, hp: F32)
        requires
            old(self).wf(),
        ensures
            final(self).wf(),
            final(self)@ == old(self)@.set_hut(x, y, owner, hp),
    {
        let c: Cell = self.touch(x, y);
        self.set_cell(x, y, Cell { node: None, hut: Some(Hut { owner, hp, occupants: 0 }), ..c });
    }

    /// Grow a resource node.
    pub fn set_node(&mut self, x: i32, y: i32, kind: Resource, amount: u32)
        requires
            old(self).wf(),
        ensures
            final(self).wf(),
            final(self)@ == old(self)@.set_node(x, y, kind, amount),
    {
        let c: Cell = self.touch(x, y);
        self.set_cell(x, y, Cell { node: Some(Node { kind, amount }), ..c });
    }

    /// Reassign every wall near a tile from one faction to another (on capture).
    pub fn reown_walls_near(&mut self, x: i32, y: i32, radius: i32, from: u8, to: u8)
        requires
            old(self).wf(),
        ensures
            final(self).wf(),
            final(self)@ == old(self)@.reown_walls_near(x, y, radius as int, from, to),
    {
        let ghost before = self@;
        proof {
            self.lemma_view_wf();
        }
        let r: i64 = radius as i64;
        let mut dy: i64 = -r;
        while dy <= r
            invariant
                self.wf(),
                r == radius,
                r >= 0 ==> -r <= dy <= r + 1,
                r < 0 ==> dy == -r,
                reowned_so_far(before, self@, (x, y), radius as int, from, to, dy as int, -r as int),
            decreases r + 1 - dy,
        {
            let mut dx: i64 = -r;
            while dx <= r
                invariant
                    self.wf(),
                    r == radius,
                    -r <= dy <= r,
                    -r <= dx <= r + 1,
                    reowned_so_far(before, self@, (x, y), radius as int, from, to, dy as int, dx as int),
                decreases r + 1 - dx,
            {
                let ghost prior = self@;
                if let Some(t) = offset((x, y), dx as i32, dy as i32) {
                    if let Some(w) = self.wall(t.0, t.1) {
                        if w.owner == from {
                            proof {
                                self.lemma_view_wf();
                            }
                            self.set_wall(t.0, t.1, to, w.hp);
                        }
                    }
                }
                proof {
                    self.lemma_view_wf();
                    lemma_reown_step(before, prior, self@, (x, y), radius as int, from, to, dy as int, dx as int);
                }
                dx = dx + 1;
            }
            dy = dy + 1;
        }
        proof {
            let goal = before.reown_walls_near(x, y, radius as int, from, to);
            assert forall|i: int| 0 <= i < self@.cells.len() implies self@.cells[i]
                == goal.cells[i] by {
                assert(self@.cells[i] =~= goal.cells[i]);
            }
            assert(self@ =~= goal);
        }
    }

    /// Deal `dmg` to a wall; returns true (and removes it) when it breaks.
    pub fn damage_wall(&mut self, x: i32, y: i32, dmg: F32) -> (r: bool)
        requires
            old(self).wf(),
        ensures
            final(self).wf(),
            final(self)@ == old(self)@.damage_wall(x, y, dmg),
            r == old(self)@.wall_falls(x, y, dmg),
    {
        if let Some(c) = self.cell(x, y) {
            if let Some(w) = c.wall {
                let hp: F32 = w.hp.sub(dmg);
                let falls: bool = hp.le(F32 { bits: 0 });
                let wall: Option<Wall> = if falls {
                    None
                } else {
                    Some(Wall { owner: w.owner, hp })
                };
                self.set_cell(x, y, Cell { wall, ..c });
                return falls;
            }
        }
        false
    }

    /// Deal `dmg` to a hut; returns it (and removes it) when it is razed.
    pub fn damage_hut(&mut self, x: i32, y: i32, dmg: F32) -> (r: Option<Hut>)
        requires
            old(self).wf(),
        ensures
            final(self).wf(),
            final(self)@ == old(self)@.damage_hut(x, y, dmg),
            r == old(self)@.hut_falls(x, y, dmg),
    {
        if let Some(c) = self.cell(x, y) {
            if let Some(h) = c.hut {
                let hp: F32 = h.hp.sub(dmg);
                let left: Hut = Hut { owner: h.owner, hp, occupants: h.occupants };
                if hp.le(F32 { bits: 0 }) {
                    self.set_cell(x, y, Cell { hut: None, ..c });
                    return Some(left);
                }
                self.set_cell(x, y, Cell { hut: Some(left), ..c });
            }
        }
        None
    }

    /// One more occupant in a hut; false when there is no hut, or no more fit.
    pub fn add_hut_occupant(&mut self, x: i32, y: i32) -> (r: bool)
        requires
            old(self).wf(),
        ensures
            final(self).wf(),
            r == (old(self)@.hut(x, y) is Some && old(self)@.hut(x, y)->0.occupants < 255),
            final(self)@ == if r {
                old(self)@.with_occupants(x, y, (old(self)@.hut(x, y)->0.occupants + 1) as u8)
            } else {
                old(self)@
            },
    {
        if let Some(c) = self.cell(x, y) {
            if let Some(h) = c.hut {
                if h.occupants < 255 {
                    let more: Hut = Hut { owner: h.owner, hp: h.hp, occupants: h.occupants + 1 };
                    self.set_cell(x, y, Cell { hut: Some(more), ..c });
                    return true;
                }
            }
        }
        false
    }

    /// Empty a hut; returns how many were inside.
    pub fn release_hut(&mut self, x: i32, y: i32) -> (r: u8)
        requires
            old(self).wf(),
        ensures
            final(self).wf(),
            final(self)@ == old(self)@.with_occupants(x, y, 0),
            r == match old(self)@.hut(x, y) {
                Some(h) => h.occupants,
                None => 0,
            },
    {
        if let Some(c) = self.cell(x, y) {
            if let Some(h) = c.hut {
                let empty: Hut = Hut { owner: h.owner, hp: h.hp, occupants: 0 };
                self.set_cell(x, y, Cell { hut: Some(empty), ..c });
                return h.occupants;
            }
        }
        0
    }

    /// Remove a resource node outright (no yield) — a knight smashing through.
    pub fn clear_node(&mut self, x: i32, y: i32)
        requires
            old(self).wf(),
        ensures
            final(self).wf(),
            final(self)@ == old(self)@.clear_node(x, y),
    {
        if let Some(c) = self.cell(x, y) {
            self.set_cell(x, y, Cell { node: None, ..c });
        }
    }

    /// Harvest one unit from a node; returns the resource kind if something was
    /// harvested, and removes the node when depleted.
    pub fn deplete_node(&mut self, x: i32, y: i32) -> (r: Option<Resource>)
        requires
            old(self).wf(),
        ensures
            final(self).wf(),
            final(self)@ == old(self)@.deplete_node(x, y),
            r == match old(self)@.node(x, y) {
                Some(n) => Some(n.kind),
                None => None,
            },
    {
        if let Some(c) = self.cell(x, y) {
            if let Some(n) = c.node {
                let node: Option<Node> = if n.amount <= 1 {
                    None
                } else {
                    Some(Node { kind: n.kind, amount: n.amount - 1 })
                };
                self.set_cell(x, y, Cell { node, ..c });
                return Some(n.kind);
            }
        }
        None
    }

    /// Plant an enemy camp near a tile, spacing houses on grass. Used once at
    /// world creation so there is always an enemy presence near the start.
    pub fn plant_camp(&mut self, center: Coord, count: usize)
        requires
            old(self).wf(),
        ensures
            final(self).wf(),
            final(self)@ == old(self)@.plant_camp(center, count as int),
            final(self)@.enemy_house_tiles.len() >= old(self)@.enemy_house_tiles.len(),
    {
        self.ensure_region(
            shift(center.0, -6),
            shift(center.1, -6),
            shift(center.0, 6),
            shift(center.1, 6),
        );
        let ghost goal = self@.camp_from(center, 0, count as int);
        proof {
            old(self).lemma_view_wf();
            law_loading_keeps_land(
                old(self)@,
                shift_spec(center.0, -6),
                shift_spec(center.1, -6),
                shift_spec(center.0, 6),
                shift_spec(center.1, 6),
                0,
                0,
            );
            lemma_camp_adds(self@, center, 0, count as int);
        }
        let mut left: usize = count;
        let mut k: i32 = 0;
        while k < 9 && left > 0
            invariant
                self.wf(),
                0 <= k <= 9,
                self@.camp_from(center, k as int, left as int) == goal,
            decreases 9 - k,
        {
            if let Some(t) = offset(center, (k % 3 - 1) * 3, (k / 3 - 1) * 3) {
                if let Some(c) = self.cell(t.0, t.1) {
                    if c.tile == Tile::Grass {
                        self.set_cell(t.0, t.1, Cell { node: None, enemy_house: true, ..c });
                        self.enemy_house_tiles.push(t);
                        left = left - 1;
                    }
                }
            }
            k = k + 1;
        }
    }
}

/// The cells after handing over the walls of the rows above `dy`, and of row
/// `dy` left of `dx`.
spec fn reowned_so_far(
    before: WorldView,
    now: WorldView,
    center: Coord,
    radius: int,
    from: u8,
    to: u8,
    dy: int,
    dx: int,
) -> bool {
    &&& before.wf()
    &&& now.wf()
    &&& now.seed == before.seed
    &&& now.coords == before.coords
    &&& now.enemy_house_tiles == before.enemy_house_tiles
    &&& forall|i: int, j: int|
        #![trigger now.cells[i][j]]
        0 <= i < now.cells.len() && 0 <= j < CHUNK_TILES ==> now.cells[i][j] == {
            let t = place_spec(before.coords[i].0, before.coords[i].1, j);
            if t.1 - center.1 < dy || (t.1 - center.1 == dy && t.0 - center.0 < dx) {
                before.reowned_cell(i, j, center, radius, from, to)
            } else {
                before.cells[i][j]
            }
        }
}

/// A tile is the one at its own place of its own chunk, and there is no other.
pub proof fn lemma_place(x: i32, y: i32)
    ensures
        place_spec(chunk_coord(x, y).0, chunk_coord(x, y).1, local_index(x, y)) == (x, y),
        0 <= local_index(x, y) < CHUNK_TILES,
{
    lemma_coord_of_parts(x);
    lemma_coord_of_parts(y);
}

proof fn lemma_place_unique(c: Coord, j: int)
    requires
        0 <= j < CHUNK_TILES,
    ensures
        ({
            let t = place_spec(c.0, c.1, j);
            chunk_coord(t.0, t.1) == c ==> local_index(t.0, t.1) == j
        }),
{
    let t = place_spec(c.0, c.1, j);
    if chunk_coord(t.0, t.1) == c {
        lemma_coord_of_parts(t.0);
        lemma_coord_of_parts(t.1);
        assert(c.0 * 32 + j % 32 == t.0);
        assert(c.1 * 32 + j / 32 == t.1);
    }
}

proof fn lemma_reown_step(
    before: WorldView,
    prior: WorldView,
    now: WorldView,
    center: Coord,
    radius: int,
    from: u8,
    to: u8,
    dy: int,
    dx: int,
)
    requires
        reowned_so_far(before, prior, center, radius, from, to, dy, dx),
        -radius <= dy <= radius,
        -radius <= dx <= radius,
        now.wf(),
        now == match offset_spec(center, dx, dy) {
            Some(t) => match prior.wall(t.0, t.1) {
                Some(w) => if w.owner == from {
                    prior.set_wall(t.0, t.1, to, w.hp)
                } else {
                    prior
                },
                None => prior,
            },
            None => prior,
        },
    ensures
        reowned_so_far(before, now, center, radius, from, to, dy, dx + 1),
{
    assert forall|i: int, j: int|
        #![trigger now.cells[i][j]]
        0 <= i < now.cells.len() && 0 <= j < CHUNK_TILES implies now.cells[i][j] == {
        let t = place_spec(before.coords[i].0, before.coords[i].1, j);
        if t.1 - center.1 < dy || (t.1 - center.1 == dy && t.0 - center.0 < dx + 1) {
            before.reowned_cell(i, j, center, radius, from, to)
        } else {
            before.cells[i][j]
        }
    } by {
        let p = place_spec(before.coords[i].0, before.coords[i].1, j);
        let old_cell = prior.cells[i][j];
        lemma_place_unique(before.coords[i], j);
        match offset_spec(center, dx, dy) {
            Some(t) => {
                lemma_place(t.0, t.1);
                let ti = prior.coords.index_of(chunk_coord(t.0, t.1));
                let tj = local_index(t.0, t.1);
                if prior.loaded(t.0, t.1) {
                    assert(prior.coords[ti] == chunk_coord(t.0, t.1));
                    if p == t && chunk_coord(t.0, t.1) == before.coords[i] {
                        assert(i == ti && j == tj);
                    }
                    if i == ti && j == tj {
                        assert(p == t);
                    }
                } else if p == t && chunk_coord(t.0, t.1) == before.coords[i] {
                    assert(prior.coords.contains(prior.coords[i]));
                }
            },
            None => {},
        }
    }
}

// --- what loading land leaves alone -----------------------------------------------

/// One world holds all that another does, and perhaps more chunks.
pub open spec fn extends(w: WorldView, more: WorldView) -> bool {
    &&& more.seed == w.seed
    &&& more.enemy_house_tiles == w.enemy_house_tiles
    &&& w.coords.len() <= more.coords.len()
    &&& forall|i: int|
        0 <= i < w.coords.len() ==> #[trigger] more.coords[i] == w.coords[i] && more.cells[i]
            == w.cells[i]
}

pub proof fn lemma_ensured(w: WorldView, c: Coord)
    requires
        w.wf(),
    ensures
        w.ensured(c).wf(),
        extends(w, w.ensured(c)),
        w.ensured(c).coords.contains(c),
{
    let more = w.ensured(c);
    if !w.coords.contains(c) {
        assert(more.coords[w.coords.len() as int] == c);
        assert forall|i: int, j: int| 0 <= i < j < more.coords.len() implies more.coords[i]
            != more.coords[j] by {
            assert(w.coords[i] == more.coords[i]);
            if j < w.coords.len() {
                assert(w.coords[j] == more.coords[j]);
            } else {
                assert(w.coords.contains(w.coords[i]));
            }
        }
    }
}

proof fn lemma_ensured_row(w: WorldView, cy: int, cx0: int, cx1: int)
    requires
        w.wf(),
    ensures
        w.ensured_row(cy, cx0, cx1).wf(),
        extends(w, w.ensured_row(cy, cx0, cx1)),
    decreases cx1 - cx0 + 1,
{
    if cx0 <= cx1 {
        let next = w.ensured((cx0 as i32, cy as i32));
        lemma_ensured(w, (cx0 as i32, cy as i32));
        lemma_ensured_row(next, cy, cx0 + 1, cx1);
        let more = w.ensured_row(cy, cx0, cx1);
        assert forall|i: int| 0 <= i < w.coords.len() implies #[trigger] more.coords[i]
            == w.coords[i] && more.cells[i] == w.cells[i] by {
            assert(next.coords[i] == w.coords[i]);
        }
    }
}

proof fn lemma_ensured_rows(w: WorldView, cy0: int, cy1: int, cx0: int, cx1: int)
    requires
        w.wf(),
    ensures
        w.ensured_rows(cy0, cy1, cx0, cx1).wf(),
        extends(w, w.ensured_rows(cy0, cy1, cx0, cx1)),
    decreases cy1 - cy0 + 1,
{
    if cy0 <= cy1 {
        let next = w.ensured_row(cy0, cx0, cx1);
        lemma_ensured_row(w, cy0, cx0, cx1);
        lemma_ensured_rows(next, cy0 + 1, cy1, cx0, cx1);
        let more = w.ensured_rows(cy0, cy1, cx0, cx1);
        assert forall|i: int| 0 <= i < w.coords.len() implies #[trigger] more.coords[i]
            == w.coords[i] && more.cells[i] == w.cells[i] by {
            assert(next.coords[i] == w.coords[i]);
        }
    }
}

/// Land that is loaded stays as it is, with every edit made to it, however much
/// more land comes into view.
pub proof fn law_loading_keeps_land(
    w: WorldView,
    min_x: i32,
    min_y: i32,
    max_x: i32,
    max_y: i32,
    x: i32,
    y: i32,
)
    requires
        w.wf(),
    ensures
        w.ensured_region(min_x, min_y, max_x, max_y).wf(),
        extends(w, w.ensured_region(min_x, min_y, max_x, max_y)),
        w.loaded(x, y) ==> w.ensured_region(min_x, min_y, max_x, max_y).cell(x, y) == w.cell(x, y),
{
    let more = w.ensured_region(min_x, min_y, max_x, max_y);
    lemma_ensured_rows(
        w,
        chunk_of_spec(min_y as int),
        chunk_of_spec(max_y as int),
        chunk_of_spec(min_x as int),
        chunk_of_spec(max_x as int),
    );
    if w.loaded(x, y) {
        let c = chunk_coord(x, y);
        let i = w.coords.index_of(c);
        assert(more.coords[i] == c);
        let j = more.coords.index_of(c);
        assert(more.coords[j] == c);
        assert(i == j);
    }
}

proof fn lemma_ensured_row_loads(w: WorldView, cy: int, cx0: int, cx1: int, cx: int)
    requires
        w.wf(),
        cx0 <= cx <= cx1,
    ensures
        w.ensured_row(cy, cx0, cx1).coords.contains((cx as i32, cy as i32)),
    decreases cx1 - cx0 + 1,
{
    let c = (cx0 as i32, cy as i32);
    let next = w.ensured(c);
    lemma_ensured(w, c);
    if cx == cx0 {
        lemma_ensured_row(next, cy, cx0 + 1, cx1);
        let i = next.coords.index_of(c);
        assert(w.ensured_row(cy, cx0, cx1).coords[i] == c);
    } else {
        lemma_ensured_row_loads(next, cy, cx0 + 1, cx1, cx);
    }
}

proof fn lemma_ensured_rows_load(
    w: WorldView,
    cy0: int,
    cy1: int,
    cx0: int,
    cx1: int,
    cx: int,
    cy: int,
)
    requires
        w.wf(),
        cx0 <= cx <= cx1,
        cy0 <= cy <= cy1,
    ensures
        w.ensured_rows(cy0, cy1, cx0, cx1).coords.contains((cx as i32, cy as i32)),
    decreases cy1 - cy0 + 1,
{
    let next = w.ensured_row(cy0, cx0, cx1);
    lemma_ensured_row(w, cy0, cx0, cx1);
    if cy == cy0 {
        lemma_ensured_row_loads(w, cy0, cx0, cx1, cx);
        lemma_ensured_rows(next, cy0 + 1, cy1, cx0, cx1);
        let c = (cx as i32, cy as i32);
        let i = next.coords.index_of(c);
        assert(w.ensured_rows(cy0, cy1, cx0, cx1).coords[i] == c);
    } else {
        lemma_ensured_rows_load(next, cy0 + 1, cy1, cx0, cx1, cx, cy);
    }
}

/// Every tile of a rectangle that is asked for gets loaded.
pub proof fn law_region_is_loaded(
    w: WorldView,
    min_x: i32,
    min_y: i32,
    max_x: i32,
    max_y: i32,
    x: i32,
    y: i32,
)
    requires
        w.wf(),
        min_x <= x <= max_x,
        min_y <= y <= max_y,
    ensures
        w.ensured_region(min_x, min_y, max_x, max_y).loaded(x, y),
{
    lemma_ensured_rows_load(
        w,
        chunk_of_spec(min_y as int),
        chunk_of_spec(max_y as int),
        chunk_of_spec(min_x as int),
        chunk_of_spec(max_x as int),
        chunk_of_spec(x as int),
        chunk_of_spec(y as int),
    );
}

/// A camp only ever adds houses to the list.
pub proof fn lemma_camp_adds(w: WorldView, center: Coord, k: int, left: int)
    ensures
        w.camp_from(center, k, left).enemy_house_tiles.len() >= w.enemy_house_tiles.len(),
    decreases 9 - k,
{
    if k < 9 && left > 0 {
        match camp_spot(center, k) {
            Some(t) => if w.tile(t.0, t.1) == Tile::Grass {
                lemma_camp_adds(w.with_camp_house(t), center, k + 1, left - 1);
            } else {
                lemma_camp_adds(w, center, k + 1, left);
            },
            None => {
                lemma_camp_adds(w, center, k + 1, left);
            },
        }
    }
}

} // verus!
