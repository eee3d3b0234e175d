//! Tile coordinates: distances, neighbours, and keys for tables.

use vstd::prelude::*;
use crate::vec2::Coord;

verus! {

pub open spec fn abs_spec(v: int) -> int {
    if v < 0 {
        -v
    } else {
        v
    }
}

/// Steps between two tiles along the grid.
pub open spec fn manhattan_spec(a: Coord, b: Coord) -> int {
    abs_spec(a.0 - b.0) + abs_spec(a.1 - b.1)
}

pub fn manhattan(a: Coord, b: Coord) -> (r: i64)
    ensures
        r == manhattan_spec(a, b),
        0 <= r <= 0x2_0000_0000,
{
    let dx: i64 = a.0 as i64 - b.0 as i64;
    let dy: i64 = a.1 as i64 - b.1 as i64;
    (if dx < 0 {
        -dx
    } else {
        dx
    }) + (if dy < 0 {
        -dy
    } else {
        dy
    })
}

/// Are both coordinates of two tiles at most `r` apart?
pub open spec fn within_spec(a: Coord, b: Coord, r: int) -> bool {
    abs_spec(a.0 - b.0) <= r && abs_spec(a.1 - b.1) <= r
}

pub fn within(a: Coord, b: Coord, r: i32) -> (w: bool)
    ensures
        w == within_spec(a, b, r as int),
{
    let dx: i64 = a.0 as i64 - b.0 as i64;
    let dy: i64 = a.1 as i64 - b.1 as i64;
    let r: i64 = r as i64;
    -r <= dx && dx <= r && -r <= dy && dy <= r
}

/// Is some tile of the list within `r` of `t`?
pub open spec fn near_any_spec(tiles: Seq<Coord>, t: Coord, r: int) -> bool {
    exists|i: int| 0 <= i < tiles.len() && within_spec(#[trigger] tiles[i], t, r)
}

pub fn near_any(tiles: &Vec<Coord>, t: Coord, r: i32) -> (w: bool)
    ensures
        w == near_any_spec(tiles@, t, r as int),
{
    let mut i: usize = 0;
    while i < tiles.len()
        invariant
            i <= tiles.len(),
            forall|j: int| 0 <= j < i ==> !within_spec(#[trigger] tiles@[j], t, r as int),
        decreases tiles.len() - i,
    {
        if within(tiles[i], t, r) {
            return true;
        }
        i = i + 1;
    }
    false
}

/// Does the list hold the tile?
pub fn contains(tiles: &Vec<Coord>, t: Coord) -> (r: bool)
    ensures
        r == tiles@.contains(t),
{
    let mut i: usize = 0;
    while i < tiles.len()
        invariant
            i <= tiles.len(),
            forall|j: int| 0 <= j < i ==> tiles@[j] != t,
        decreases tiles.len() - i,
    {
        if tiles[i].0 == t.0 && tiles[i].1 == t.1 {
            assert(tiles@[i as int] == t);
            return true;
        }
        i = i + 1;
    }
    false
}

/// Is `b` one of the four neighbours of `a`?
pub open spec fn adjacent_spec(a: Coord, b: Coord) -> bool {
    manhattan_spec(a, b) == 1
}

pub fn adjacent(a: Coord, b: Coord) -> (r: bool)
    ensures
        r == adjacent_spec(a, b),
{
    manhattan(a, b) == 1
}

/// The tile that lies `dx`, `dy` away, unless it is off the grid.
pub open spec fn offset_spec(t: Coord, dx: int, dy: int) -> Option<Coord> {
    if i32::MIN <= t.0 + dx <= i32::MAX && i32::MIN <= t.1 + dy <= i32::MAX {
        Some(((t.0 + dx) as i32, (t.1 + dy) as i32))
    } else {
        None
    }
}

pub fn offset(t: Coord, dx: i32, dy: i32) -> (r: Option<Coord>)
    ensures
        r == offset_spec(t, dx as int, dy as int),
{
    let x: i64 = t.0 as i64 + dx as i64;
    let y: i64 = t.1 as i64 + dy as i64;
    if x < i32::MIN as i64 || x > i32::MAX as i64 || y < i32::MIN as i64 || y > i32::MAX as i64 {
        None
    } else {
        Some((x as i32, y as i32))
    }
}

/// A coordinate moved along, stopping at the edge of the grid.
pub open spec fn shift_spec(v: i32, d: int) -> i32 {
    if v + d < i32::MIN {
        i32::MIN
    } else if v + d > i32::MAX {
        i32::MAX
    } else {
        (v + d) as i32
    }
}

pub fn shift(v: i32, d: i32) -> (r: i32)
    ensures
        r == shift_spec(v, d as int),
{
    stay_on_grid(v as i64 + d as i64)
}

/// As `shift`, the other way.
pub fn shift_back(v: i32, d: i32) -> (r: i32)
    ensures
        r == shift_spec(v, -(d as int)),
{
    stay_on_grid(v as i64 - d as i64)
}

fn stay_on_grid(s: i64) -> (r: i32)
    ensures
        r == shift_spec(0, s as int),
{
    if s < i32::MIN as i64 {
        i32::MIN
    } else if s > i32::MAX as i64 {
        i32::MAX
    } else {
        s as i32
    }
}

/// Directions of the four neighbours, in the order they are looked at: right,
/// left, down, up; then the diagonals: down right, up left, up right, down left.
pub open spec fn direction_spec(i: int) -> (int, int) {
    if i == 0 {
        (1, 0)
    } else if i == 1 {
        (-1, 0)
    } else if i == 2 {
        (0, 1)
    } else if i == 3 {
        (0, -1)
    } else if i == 4 {
        (1, 1)
    } else if i == 5 {
        (-1, -1)
    } else if i == 6 {
        (1, -1)
    } else {
        (-1, 1)
    }
}

/// Neighbour number `i`, unless it is off the grid.
pub open spec fn neighbor_spec(t: Coord, i: int) -> Option<Coord> {
    offset_spec(t, direction_spec(i).0, direction_spec(i).1)
}

pub fn neighbor(t: Coord, i: u32) -> (r: Option<Coord>)
    ensures
        r == neighbor_spec(t, i as int),
{
    let d: (i32, i32) = if i == 0 {
        (1, 0)
    } else if i == 1 {
        (-1, 0)
    } else if i == 2 {
        (0, 1)
    } else if i == 3 {
        (0, -1)
    } else if i == 4 {
        (1, 1)
    } else if i == 5 {
        (-1, -1)
    } else if i == 6 {
        (1, -1)
    } else {
        (-1, 1)
    };
    offset(t, d.0, d.1)
}

/// A number for each tile.
pub open spec fn key_spec(t: Coord) -> u64 {
    ((t.0 + 0x8000_0000) * 0x1_0000_0000 + (t.1 + 0x8000_0000)) as u64
}

pub fn key(t: Coord) -> (r: u64)
    ensures
        r == key_spec(t),
{
    let x: u64 = (t.0 as i64 + 0x8000_0000) as u64;
    let y: u64 = (t.1 as i64 + 0x8000_0000) as u64;
    x * 0x1_0000_0000 + y
}

/// No two tiles share a key.
pub proof fn lemma_key_injective(a: Coord, b: Coord)
    ensures
        key_spec(a) == key_spec(b) <==> a == b,
{
}

/// Neighbours are adjacent, and adjacency goes both ways.
pub proof fn lemma_neighbor_adjacent(t: Coord, i: int)
    requires
        0 <= i < 4,
        neighbor_spec(t, i) is Some,
    ensures
        adjacent_spec(t, neighbor_spec(t, i)->0),
        adjacent_spec(neighbor_spec(t, i)->0, t),
{
}

} // verus!
