//! Points and offsets in tile units.

use vstd::prelude::*;
use crate::float::{from_int_spec, F32};

verus! {

/// A tile's coordinates: `x` grows to the right, `y` down the screen.
pub type Coord = (i32, i32);

#[derive(Clone, Copy, PartialEq, Eq, Structural, Debug)]
pub struct Vec2 {
    pub x: F32,
    pub y: F32,
}

/// Pattern of one half.
pub const HALF: u32 = 0x3f00_0000;

/// Pattern of 1.
pub const ONE: u32 = 0x3f80_0000;

impl Vec2 {
    pub open spec fn sub_spec(self, other: Vec2) -> Vec2 {
        Vec2 { x: self.x.sub_spec(other.x), y: self.y.sub_spec(other.y) }
    }

    pub open spec fn add_spec(self, other: Vec2) -> Vec2 {
        Vec2 { x: self.x.add_spec(other.x), y: self.y.add_spec(other.y) }
    }

    pub open spec fn mul_spec(self, f: F32) -> Vec2 {
        Vec2 { x: self.x.mul_spec(f), y: self.y.mul_spec(f) }
    }

    pub open spec fn div_spec(self, f: F32) -> Vec2 {
        Vec2 { x: self.x.div_spec(f), y: self.y.div_spec(f) }
    }

    pub open spec fn length_squared_spec(self) -> F32 {
        self.x.mul_spec(self.x).add_spec(self.y.mul_spec(self.y))
    }

    pub open spec fn length_spec(self) -> F32 {
        self.length_squared_spec().sqrt_spec()
    }

    pub open spec fn distance_squared_spec(self, other: Vec2) -> F32 {
        self.sub_spec(other).length_squared_spec()
    }

    /// The tile that a point lies in.
    pub open spec fn tile_spec(self) -> Coord {
        (self.x.floor_spec(), self.y.floor_spec())
    }

    pub open spec fn eq_spec(self, other: Vec2) -> bool {
        self.x.eq_spec(other.x) && self.y.eq_spec(other.y)
    }

    pub fn new(x: F32, y: F32) -> (r: Vec2)
        ensures
            r == (Vec2 { x, y }),
    {
        Vec2 { x, y }
    }

    pub fn add(self, other: Vec2) -> (r: Vec2)
        ensures
            r == self.add_spec(other),
    {
        Vec2 { x: self.x.add(other.x), y: self.y.add(other.y) }
    }

    pub fn sub(self, other: Vec2) -> (r: Vec2)
        ensures
            r == self.sub_spec(other),
    {
        Vec2 { x: self.x.sub(other.x), y: self.y.sub(other.y) }
    }

    pub fn mul(self, f: F32) -> (r: Vec2)
        ensures
            r == self.mul_spec(f),
    {
        Vec2 { x: self.x.mul(f), y: self.y.mul(f) }
    }

    pub fn div(self, f: F32) -> (r: Vec2)
        ensures
            r == self.div_spec(f),
    {
        Vec2 { x: self.x.div(f), y: self.y.div(f) }
    }

    pub fn length_squared(self) -> (r: F32)
        ensures
            r == self.length_squared_spec(),
    {
        self.x.mul(self.x).add(self.y.mul(self.y))
    }

    pub fn length(self) -> (r: F32)
        ensures
            r == self.length_spec(),
    {
        self.length_squared().sqrt()
    }

    pub fn distance_squared(self, other: Vec2) -> (r: F32)
        ensures
            r == self.distance_squared_spec(other),
    {
        self.sub(other).length_squared()
    }

    /// The tile that a point lies in.
    pub fn tile(self) -> (r: Coord)
        ensures
            r == self.tile_spec(),
    {
        (self.x.floor(), self.y.floor())
    }

    /// Do two points have equal coordinates?
    pub fn eq_value(self, other: Vec2) -> (r: bool)
        ensures
            r == self.eq_spec(other),
    {
        self.x.eq_value(other.x) && self.y.eq_value(other.y)
    }
}

pub open spec fn tile_center_spec(t: Coord) -> Vec2 {
    Vec2 {
        x: from_int_spec(t.0 as int).add_spec(F32 { bits: HALF }),
        y: from_int_spec(t.1 as int).add_spec(F32 { bits: HALF }),
    }
}

/// Centre point of a tile.
pub fn tile_center(t: Coord) -> (r: Vec2)
    ensures
        r == tile_center_spec(t),
{
    let half: F32 = F32 { bits: HALF };
    Vec2 { x: F32::from_int(t.0 as i64).add(half), y: F32::from_int(t.1 as i64).add(half) }
}

} // verus!
