//! Looking around: the nearest of some tiles, the right neighbour of a tile, and
//! the villages that houses form.

use vstd::prelude::*;
use crate::chunk::{Resource, NO_OWNER};
use crate::grid::{
    abs_spec, contains, manhattan, manhattan_spec, near_any, near_any_spec, neighbor, neighbor_spec,
    offset, offset_spec, shift, shift_back, shift_spec,
};
use crate::pathfind::{decides, total, walks};
use crate::vec2::Coord;
use crate::world::{World, WorldView};

verus! {

/// The first of neighbours `i .. n` of a tile that will do.
pub open spec fn first_neighbor(
    t: Coord,
    i: int,
    n: int,
    will_do: spec_fn(Coord) -> bool,
) -> Option<Coord>
    decreases n - i,
{
    if i >= n {
        None
    } else if neighbor_spec(t, i) is Some && will_do(neighbor_spec(t, i)->0) {
        neighbor_spec(t, i)
    } else {
        first_neighbor(t, i + 1, n, will_do)
    }
}

/// The first of the four neighbours of a tile, or of the eight, that will do.
pub fn find_neighbor<F: Fn(i32, i32) -> bool>(t: Coord, n: u32, will_do: F) -> (r: Option<Coord>)
    requires
        total(will_do),
    ensures
        forall|g: spec_fn(Coord) -> bool| #[trigger]
            decides(will_do, g) ==> r == first_neighbor(t, 0, n as int, g),
{
    let mut i: u32 = 0;
    while i < n
        invariant
            i <= n,
            total(will_do),
            forall|g: spec_fn(Coord) -> bool| #[trigger]
                decides(will_do, g) ==> first_neighbor(t, i as int, n as int, g)
                    == first_neighbor(t, 0, n as int, g),
        decreases n - i,
    {
        if let Some(c) = neighbor(t, i) {
            if will_do(c.0, c.1) {
                return Some(c);
            }
        }
        i = i + 1;
    }
    None
}

/// The nearest tile that will do; the earliest of several as near.
pub open spec fn nearest_spec(
    tiles: Seq<Coord>,
    from: Coord,
    will_do: spec_fn(Coord) -> bool,
) -> Option<Coord>
    decreases tiles.len(),
{
    if tiles.len() == 0 {
        None
    } else {
        let best = nearest_spec(tiles.drop_last(), from, will_do);
        let t = tiles.last();
        if will_do(t) && (best is None || manhattan_spec(t, from) < manhattan_spec(best->0, from)) {
            Some(t)
        } else {
            best
        }
    }
}

pub fn nearest_where<F: Fn(i32, i32) -> bool>(
    tiles: &Vec<Coord>,
    from: Coord,
    will_do: F,
) -> (r: Option<Coord>)
    requires
        total(will_do),
    ensures
        forall|g: spec_fn(Coord) -> bool| #[trigger]
            decides(will_do, g) ==> r == nearest_spec(tiles@, from, g),
{
    let mut best: Option<Coord> = None;
    let mut i: usize = 0;
    while i < tiles.len()
        invariant
            i <= tiles.len(),
            total(will_do),
            forall|g: spec_fn(Coord) -> bool| #[trigger]
                decides(will_do, g) ==> best == nearest_spec(tiles@.take(i as int), from, g),
        decreases tiles.len() - i,
    {
        let ghost before = best;
        let t: Coord = tiles[i];
        if will_do(t.0, t.1) {
            let nearer: bool = match best {
                None => true,
                Some(b) => manhattan(t, from) < manhattan(b, from),
            };
            if nearer {
                best = Some(t);
            }
        }
        proof {
            assert(tiles@.take(i + 1).drop_last() =~= tiles@.take(i as int));
        }
        i = i + 1;
    }
    assert(tiles@.take(i as int) =~= tiles@);
    best
}

/// The nearest tile is one of those that will do, and none that will do is
/// nearer; there is one unless none will do.
pub proof fn law_nearest(tiles: Seq<Coord>, from: Coord, will_do: spec_fn(Coord) -> bool)
    ensures
        match nearest_spec(tiles, from, will_do) {
            Some(b) => tiles.contains(b) && will_do(b) && forall|i: int|
                0 <= i < tiles.len() && will_do(#[trigger] tiles[i]) ==> manhattan_spec(b, from)
                    <= manhattan_spec(tiles[i], from),
            None => forall|i: int| 0 <= i < tiles.len() ==> !will_do(#[trigger] tiles[i]),
        },
    decreases tiles.len(),
{
    if tiles.len() > 0 {
        let front = tiles.drop_last();
        law_nearest(front, from, will_do);
        assert(tiles[tiles.len() - 1] == tiles.last());
        match nearest_spec(front, from, will_do) {
            Some(b) => {
                let k = front.index_of(b);
                assert(tiles[k] == b);
            },
            None => {},
        }
        assert forall|i: int| 0 <= i < tiles.len() && will_do(#[trigger] tiles[i]) implies (
        match nearest_spec(tiles, from, will_do) {
            Some(b) => manhattan_spec(b, from) <= manhattan_spec(tiles[i], from),
            None => false,
        }) by {
            if i < front.len() {
                assert(front[i] == tiles[i]);
            }
        }
    }
}

pub open spec fn anything() -> spec_fn(Coord) -> bool {
    |t: Coord| true
}

/// The house nearest to a tile.
pub fn nearest_house(home: &Vec<Coord>, t: Coord) -> (r: Option<Coord>)
    ensures
        r == nearest_spec(home@, t, anything()),
{
    let will_do = |x: i32, y: i32| -> (b: bool)
        ensures
            b,
        { true };
    assert(decides(will_do, anything()));
    nearest_where(home, t, will_do)
}

/// A 4-neighbour of `t` that a unit can stand on to work it.
pub open spec fn stand_tile_spec(w: WorldView, owner: u8, t: Coord) -> Option<Coord> {
    first_neighbor(t, 0, 4, walks(w, owner))
}

pub fn stand_tile(world: &World, owner: u8, t: Coord) -> (r: Option<Coord>)
    requires
        world.wf(),
    ensures
        r == stand_tile_spec(world@, owner, t),
{
    let will_do = |x: i32, y: i32| -> (b: bool)
        requires
            world.wf(),
        ensures
            b == world@.walkable_for(owner, x, y),
        { world.walkable_for(owner, x, y) };
    assert(decides(will_do, walks(world@, owner)));
    find_neighbor(t, 4, will_do)
}

pub open spec fn adjacent_walkable_spec(w: WorldView, x: i32, y: i32) -> Option<Coord> {
    first_neighbor((x, y), 0, 8, walks(w, NO_OWNER))
}

/// A tile next to this one, corners included, that anyone can walk on.
pub fn adjacent_walkable(world: &World, x: i32, y: i32) -> (r: Option<Coord>)
    requires
        world.wf(),
    ensures
        r == adjacent_walkable_spec(world@, x, y),
{
    let will_do = |x: i32, y: i32| -> (b: bool)
        requires
            world.wf(),
        ensures
            b == world@.walkable_for(NO_OWNER, x, y),
        { world.walkable(x, y) };
    assert(decides(will_do, walks(world@, NO_OWNER)));
    find_neighbor((x, y), 8, will_do)
}

/// Bare ground within the leash where nothing has been sown yet.
pub open spec fn plantable(
    w: WorldView,
    home: Seq<Coord>,
    leash: int,
    saplings: Seq<Coord>,
) -> spec_fn(Coord) -> bool {
    |t: Coord|
        w.is_open_grass(t.0, t.1) && near_any_spec(home, t, leash) && !saplings.contains(t)
}

pub open spec fn plantable_neighbor_spec(
    w: WorldView,
    home: Seq<Coord>,
    leash: int,
    saplings: Seq<Coord>,
    stand: Coord,
) -> Option<Coord> {
    first_neighbor(stand, 0, 4, plantable(w, home, leash, saplings))
}

/// A bare tile next to `stand` fit to sow a sapling on (open grass, in the
/// leash, not already a sapling).
pub fn plantable_neighbor(
    world: &World,
    home: &Vec<Coord>,
    leash: i32,
    saplings: &Vec<Coord>,
    stand: Coord,
) -> (r: Option<Coord>)
    requires
        world.wf(),
    ensures
        r == plantable_neighbor_spec(world@, home@, leash as int, saplings@, stand),
{
    let will_do = |x: i32, y: i32| -> (b: bool)
        requires
            world.wf(),
        ensures
            b == (world@.is_open_grass(x, y) && near_any_spec(home@, (x, y), leash as int)
                && !saplings@.contains((x, y))),
        { world.is_open_grass(x, y) && near_any(home, (x, y), leash) && !contains(saplings, (x, y)) };
    assert(decides(will_do, plantable(world@, home@, leash as int, saplings@)));
    find_neighbor(stand, 4, will_do)
}

/// Resource nodes, optionally of one kind.
pub open spec fn has_node(w: WorldView, kind: Option<Resource>) -> spec_fn(Coord) -> bool {
    |t: Coord|
        w.node(t.0, t.1) is Some && (kind is None || kind == Some(w.node(t.0, t.1)->0.kind))
}

pub open spec fn neighbor_node_spec(w: WorldView, t: Coord, kind: Option<Resource>) -> Option<
    Coord,
> {
    first_neighbor(t, 0, 4, has_node(w, kind))
}

/// A neighbouring resource node, optionally restricted to a preferred kind.
pub fn neighbor_node(world: &World, t: Coord, kind: Option<Resource>) -> (r: Option<Coord>)
    requires
        world.wf(),
    ensures
        r == neighbor_node_spec(world@, t, kind),
{
    let will_do = |x: i32, y: i32| -> (b: bool)
        requires
            world.wf(),
        ensures
            b == has_node(world@, kind)((x, y)),
        {
            match world.node(x, y) {
                Some(n) => match kind {
                    Some(k) => k == n.kind,
                    None => true,
                },
                None => false,
            }
        };
    assert(decides(will_do, has_node(world@, kind)));
    find_neighbor(t, 4, will_do)
}

pub open spec fn foreign_wall(w: WorldView, owner: u8) -> spec_fn(Coord) -> bool {
    |t: Coord| w.wall(t.0, t.1) is Some && w.wall(t.0, t.1)->0.owner != owner
}

/// An enemy-owned wall adjacent to `tile`, if any (which knights hack down).
pub fn adjacent_enemy_wall(world: &World, owner: u8, tile: Coord) -> (r: Option<Coord>)
    requires
        world.wf(),
    ensures
        r == first_neighbor(tile, 0, 4, foreign_wall(world@, owner)),
{
    let will_do = |x: i32, y: i32| -> (b: bool)
        requires
            world.wf(),
        ensures
            b == foreign_wall(world@, owner)((x, y)),
        {
            match world.wall(x, y) {
                Some(w) => w.owner != owner,
                None => false,
            }
        };
    assert(decides(will_do, foreign_wall(world@, owner)));
    find_neighbor(tile, 4, will_do)
}

pub open spec fn foreign_hut(w: WorldView, owner: u8) -> spec_fn(Coord) -> bool {
    |t: Coord| w.hut(t.0, t.1) is Some && w.hut(t.0, t.1)->0.owner != owner
}

/// An enemy-owned hut adjacent to `tile`, if any (which knights break into).
pub fn adjacent_enemy_hut(world: &World, owner: u8, tile: Coord) -> (r: Option<Coord>)
    requires
        world.wf(),
    ensures
        r == first_neighbor(tile, 0, 4, foreign_hut(world@, owner)),
{
    let will_do = |x: i32, y: i32| -> (b: bool)
        requires
            world.wf(),
        ensures
            b == foreign_hut(world@, owner)((x, y)),
        {
            match world.hut(x, y) {
                Some(h) => h.owner != owner,
                None => false,
            }
        };
    assert(decides(will_do, foreign_hut(world@, owner)));
    find_neighbor(tile, 4, will_do)
}

/// Open grass on the square ring of radius `r` round a tile, row by row from
/// place `k` on.
pub open spec fn ring_spec(w: WorldView, center: Coord, r: int, k: int) -> Option<Coord>
    decreases (2 * r + 1) * (2 * r + 1) - k,
{
    let side = 2 * r + 1;
    if k >= side * side {
        None
    } else {
        let dx = k % side - r;
        let dy = k / side - r;
        let t = offset_spec(center, dx, dy);
        if (abs_spec(dx) == r || abs_spec(dy) == r) && t is Some && w.is_open_grass(
            (t->0).0,
            (t->0).1,
        ) {
            t
        } else {
            ring_spec(w, center, r, k + 1)
        }
    }
}

pub open spec fn choose_wall_tile_spec(w: WorldView, center: Coord) -> Option<Coord> {
    match ring_spec(w, center, 1, 0) {
        Some(t) => Some(t),
        None => ring_spec(w, center, 2, 0),
    }
}

fn ring(world: &World, center: Coord, r: i32) -> (t: Option<Coord>)
    requires
        world.wf(),
        1 <= r <= 2,
    ensures
        t == ring_spec(world@, center, r as int, 0),
{
    let side: i32 = 2 * r + 1;
    let mut k: i32 = 0;
    let all: i32 = if r == 1 {
        9
    } else {
        25
    };
    while k < all
        invariant
            world.wf(),
            1 <= r <= 2,
            side == 2 * r + 1,
            r == 1 ==> all == 9,
            r == 2 ==> all == 25,
            0 <= k <= all,
            ring_spec(world@, center, r as int, k as int) == ring_spec(world@, center, r as int, 0),
        decreases all - k,
    {
        let dx: i32 = k % side - r;
        let dy: i32 = k / side - r;
        assert(-2 <= dy <= 2 && -2 <= dx <= 2) by {
            if r == 1 {
                assert(0 <= k / 3 <= 2 && 0 <= k % 3 <= 2);
            } else {
                assert(0 <= k / 5 <= 4 && 0 <= k % 5 <= 4);
            }
        }
        if dx == r || dx == -r || dy == r || dy == -r {
            if let Some(t) = offset(center, dx, dy) {
                if world.is_open_grass(t.0, t.1) {
                    return Some(t);
                }
            }
        }
        k = k + 1;
    }
    assert((2 * r + 1) * (2 * r + 1) == all) by (nonlinear_arith)
        requires
            1 <= r <= 2,
            r == 1 ==> all == 9,
            r == 2 ==> all == 25,
    ;
    None
}

/// A fresh frontier tile to wall: open grass in a ring around `center` (the
/// house the knight returned to), so walls hug that particular village.
pub fn choose_wall_tile(world: &World, center: Coord) -> (r: Option<Coord>)
    requires
        world.wf(),
    ensures
        r == choose_wall_tile_spec(world@, center),
{
    match ring(world, center, 1) {
        Some(t) => Some(t),
        None => ring(world, center, 2),
    }
}

/// The tiles of a square, row by row, from place `k` on, that will do.
pub open spec fn square_spec(
    center: Coord,
    r: int,
    k: int,
    will_do: spec_fn(Coord) -> bool,
) -> Seq<Coord>
    decreases k,
{
    let side = 2 * r + 1;
    if k <= 0 {
        Seq::empty()
    } else {
        let before = square_spec(center, r, k - 1, will_do);
        let t = offset_spec(center, (k - 1) % side - r, (k - 1) / side - r);
        if t is Some && will_do(t->0) {
            before.push(t->0)
        } else {
            before
        }
    }
}

/// The tiles of a square, row by row, that will do.
pub open spec fn whole_square(center: Coord, r: int, will_do: spec_fn(Coord) -> bool) -> Seq<Coord> {
    if r < 0 {
        Seq::empty()
    } else {
        square_spec(center, r, (2 * r + 1) * (2 * r + 1), will_do)
    }
}

pub fn square<F: Fn(i32, i32) -> bool>(center: Coord, r: i32, will_do: F) -> (out: Vec<Coord>)
    requires
        total(will_do),
    ensures
        forall|g: spec_fn(Coord) -> bool| #[trigger]
            decides(will_do, g) ==> out@ == whole_square(center, r as int, g),
{
    let mut out: Vec<Coord> = Vec::new();
    assert(out@ =~= Seq::empty());
    if r < 0 {
        return out;
    }
    let side: i128 = 2 * r as i128 + 1;
    proof {
        assert(0 <= side * side <= 0x1_0000_0000 * 0x1_0000_0000) by (nonlinear_arith)
            requires
                0 <= side <= 0x1_0000_0000,
        ;
        assert((2 * r + 1) * (2 * r + 1) == side * side);
    }
    let all: i128 = side * side;
    let mut k: i128 = 0;
    while k < all
        invariant
            0 <= r,
            side == 2 * r + 1,
            0 <= k <= all,
            all == side * side,
            total(will_do),
            forall|g: spec_fn(Coord) -> bool| #[trigger]
                decides(will_do, g) ==> out@ == square_spec(center, r as int, k as int, g),
        decreases all - k,
    {
        proof {
            assert(0 <= k / side < side && 0 <= k % side < side) by (nonlinear_arith)
                requires
                    0 <= k < side * side,
                    side > 0,
            ;
        }
        let dx: i32 = (k % side - r as i128) as i32;
        let dy: i32 = (k / side - r as i128) as i32;
        if let Some(t) = offset(center, dx, dy) {
            if will_do(t.0, t.1) {
                out.push(t);
            }
        }
        k = k + 1;
    }
    out
}

/// Walkable tiles in a square.
pub fn open_tiles_near(world: &World, cx: i32, cy: i32, r: i32) -> (out: Vec<Coord>)
    requires
        world.wf(),
    ensures
        out@ == whole_square((cx, cy), r as int, walks(world@, NO_OWNER)),
{
    let will_do = |x: i32, y: i32| -> (b: bool)
        requires
            world.wf(),
        ensures
            b == world@.walkable_for(NO_OWNER, x, y),
        { world.walkable(x, y) };
    assert(decides(will_do, walks(world@, NO_OWNER)));
    square((cx, cy), r, will_do)
}

pub open spec fn open_grass(w: WorldView) -> spec_fn(Coord) -> bool {
    |t: Coord| w.is_open_grass(t.0, t.1)
}

pub open spec fn land_region(w: WorldView, near: Coord, r: int) -> WorldView {
    w.ensured_region(
        shift_spec(near.0, -r),
        shift_spec(near.1, -r),
        shift_spec(near.0, r),
        shift_spec(near.1, r),
    )
}

pub open spec fn land_anchor_spec(w: WorldView, near: Coord, r: int) -> Option<Coord> {
    nearest_spec(whole_square(near, r, open_grass(w)), near, anything())
}

/// Ensure a region and return the nearest open-grass tile to `near`.
pub fn find_land_anchor(world: &mut World, near: Coord, r: i32) -> (t: Option<Coord>)
    requires
        old(world).wf(),
    ensures
        final(world).wf(),
        final(world)@ == land_region(old(world)@, near, r as int),
        t == land_anchor_spec(final(world)@, near, r as int),
{
    world.ensure_region(
        shift_back(near.0, r),
        shift_back(near.1, r),
        shift(near.0, r),
        shift(near.1, r),
    );
    let land: &World = &*world;
    let will_do = |x: i32, y: i32| -> (b: bool)
        requires
            land.wf(),
        ensures
            b == land@.is_open_grass(x, y),
        { land.is_open_grass(x, y) };
    assert(decides(will_do, open_grass(land@)));
    let tiles: Vec<Coord> = square(near, r, will_do);
    nearest_house(&tiles, near)
}

} // verus!
