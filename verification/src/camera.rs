//! Top-down orthographic camera measured in tile units.

use vstd::prelude::*;
use crate::float::{from_int_spec, F32};
use crate::grid::{shift, shift_spec};
use crate::unit::ZERO;
use crate::vec2::{Vec2, HALF, ONE};

verus! {

/// Tiles in the height of a fresh view: 28.
pub const DEFAULT_VIEW_HEIGHT: u32 = 0x41e0_0000;

/// The closest zoom: 8 tiles.
pub const MIN_VIEW_HEIGHT: u32 = 0x4100_0000;

/// The widest zoom: 80 tiles.
pub const MAX_VIEW_HEIGHT: u32 = 0x42a0_0000;

/// What a notch of the wheel does to the height of the view: 0.9 and 1.1.
pub const ZOOM_IN: u32 = 0x3f66_6666;

pub const ZOOM_OUT: u32 = 0x3f8c_cccd;

/// Part of the view's height that a second of panning covers: 0.9.
pub const PAN_SPEED: u32 = 0x3f66_6666;

pub const TWO: u32 = 0x4000_0000;

/// Tiles beyond the visible rectangle that are still simulated, so units walking
/// on/off screen behave seamlessly.
pub const SIM_MARGIN: i32 = 24;

/// The keys held down.
#[derive(Clone, Copy, PartialEq, Eq, Structural, Debug)]
pub struct Keys {
    pub up: bool,
    pub down: bool,
    pub left: bool,
    pub right: bool,
}

#[derive(Clone, Copy, PartialEq, Eq, Structural, Debug)]
pub struct Camera {
    /// World-space point at the centre of the screen (in tiles).
    pub center: Vec2,
    /// How many tiles tall the viewport is; width derives from aspect.
    pub view_height: F32,
    pub aspect: F32,
}

/// The way the keys pull along one axis.
pub open spec fn pull_spec(back: bool, forth: bool) -> F32 {
    let start = if back {
        (F32 { bits: ZERO }).sub_spec(F32 { bits: ONE })
    } else {
        F32 { bits: ZERO }
    };
    if forth {
        start.add_spec(F32 { bits: ONE })
    } else {
        start
    }
}

fn pull(back: bool, forth: bool) -> (r: F32)
    ensures
        r == pull_spec(back, forth),
{
    let start: F32 = if back {
        (F32 { bits: ZERO }).sub(F32 { bits: ONE })
    } else {
        F32 { bits: ZERO }
    };
    if forth {
        start.add(F32 { bits: ONE })
    } else {
        start
    }
}

/// A vector of the same direction and length one.
pub open spec fn normalized_spec(v: Vec2) -> Vec2 {
    v.mul_spec((F32 { bits: ONE }).div_spec(v.length_spec()))
}

impl Camera {
    pub open spec fn half_extents_spec(self) -> Vec2 {
        let hh = self.view_height.mul_spec(F32 { bits: HALF });
        Vec2 { x: hh.mul_spec(self.aspect), y: hh }
    }

    pub open spec fn screen_to_world_spec(self, px: F32, py: F32, w: F32, h: F32) -> Vec2 {
        let he = self.half_extents_spec();
        Vec2 {
            x: self.center.x.sub_spec(he.x).add_spec(
                px.div_spec(w).mul_spec(he.x).mul_spec(F32 { bits: TWO }),
            ),
            y: self.center.y.sub_spec(he.y).add_spec(
                py.div_spec(h).mul_spec(he.y).mul_spec(F32 { bits: TWO }),
            ),
        }
    }

    pub open spec fn zoomed(self, factor: F32) -> Camera {
        Camera {
            view_height: self.view_height.mul_spec(factor).clamp_spec(
                F32 { bits: MIN_VIEW_HEIGHT },
                F32 { bits: MAX_VIEW_HEIGHT },
            ),
            ..self
        }
    }

    /// Visible tile rectangle (inclusive) with a small margin.
    pub open spec fn visible_spec(self) -> (i32, i32, i32, i32) {
        let he = self.half_extents_spec();
        (
            shift_spec(self.center.x.sub_spec(he.x).floor_spec(), -1),
            shift_spec(self.center.y.sub_spec(he.y).floor_spec(), -1),
            shift_spec(self.center.x.add_spec(he.x).ceil_spec(), 1),
            shift_spec(self.center.y.add_spec(he.y).ceil_spec(), 1),
        )
    }

    /// The rectangle that is simulated.
    pub open spec fn sim_spec(self) -> (i32, i32, i32, i32) {
        let v = self.visible_spec();
        (
            shift_spec(v.0, -(SIM_MARGIN as int)),
            shift_spec(v.1, -(SIM_MARGIN as int)),
            shift_spec(v.2, SIM_MARGIN as int),
            shift_spec(v.3, SIM_MARGIN as int),
        )
    }

    /// The view moved along with the keys, as fast as it is wide.
    pub open spec fn panned(self, keys: Keys, dt: F32) -> Camera {
        let step = self.view_height.mul_spec(F32 { bits: PAN_SPEED }).mul_spec(dt);
        let d = Vec2 { x: pull_spec(keys.left, keys.right), y: pull_spec(keys.up, keys.down) };
        if d.eq_spec(Vec2 { x: F32 { bits: ZERO }, y: F32 { bits: ZERO } }) {
            self
        } else {
            Camera {
                center: self.center.add_spec(normalized_spec(d).mul_spec(step)),
                ..self
            }
        }
    }

    pub fn new(center: Vec2) -> (r: Camera)
        ensures
            r == (Camera {
                center,
                view_height: F32 { bits: DEFAULT_VIEW_HEIGHT },
                aspect: F32 { bits: ONE },
            }),
    {
        Camera {
            center,
            view_height: F32 { bits: DEFAULT_VIEW_HEIGHT },
            aspect: F32 { bits: ONE },
        }
    }

    /// Half the width and height of the view.
    pub fn half_extents(&self) -> (r: Vec2)
        ensures
            r == self.half_extents_spec(),
    {
        let hh: F32 = self.view_height.mul(F32 { bits: HALF });
        Vec2 { x: hh.mul(self.aspect), y: hh }
    }

    /// The edges of the view: left, right, top, bottom. With +Y pointing *down*
    /// the screen, tile (0,0) is top-left, matching the world grid.
    pub fn edges(&self) -> (r: (F32, F32, F32, F32))
        ensures
            r.0 == self.center.x.sub_spec(self.half_extents_spec().x),
            r.1 == self.center.x.add_spec(self.half_extents_spec().x),
            r.2 == self.center.y.sub_spec(self.half_extents_spec().y),
            r.3 == self.center.y.add_spec(self.half_extents_spec().y),
    {
        let he: Vec2 = self.half_extents();
        (
            self.center.x.sub(he.x),
            self.center.x.add(he.x),
            self.center.y.sub(he.y),
            self.center.y.add(he.y),
        )
    }

    /// Convert a screen pixel coordinate to world-space tile coordinates.
    pub fn screen_to_world(&self, px: F32, py: F32, screen_w: F32, screen_h: F32) -> (r: Vec2)
        ensures
            r == self.screen_to_world_spec(px, py, screen_w, screen_h),
    {
        let he: Vec2 = self.half_extents();
        let nx: F32 = px.div(screen_w);
        let ny: F32 = py.div(screen_h);
        let two: F32 = F32 { bits: TWO };
        Vec2 {
            x: self.center.x.sub(he.x).add(nx.mul(he.x).mul(two)),
            y: self.center.y.sub(he.y).add(ny.mul(he.y).mul(two)),
        }
    }

    pub fn zoom(&mut self, factor: F32)
        ensures
            *final(self) == old(self).zoomed(factor),
    {
        self.view_height = self.view_height.mul(factor).clamp(
            F32 { bits: MIN_VIEW_HEIGHT },
            F32 { bits: MAX_VIEW_HEIGHT },
        );
    }

    /// Scroll up to zoom in, down to zoom out.
    pub fn scroll(&mut self, amount: F32)
        ensures
            *final(self) == old(self).zoomed(
                if (F32 { bits: ZERO }).lt_spec(amount) {
                    F32 { bits: ZOOM_IN }
                } else {
                    F32 { bits: ZOOM_OUT }
                },
            ),
    {
        let factor: F32 = if (F32 { bits: ZERO }).lt(amount) {
            F32 { bits: ZOOM_IN }
        } else {
            F32 { bits: ZOOM_OUT }
        };
        self.zoom(factor);
    }

    /// Fit the view to a screen of that many pixels.
    pub fn resize(&mut self, w: u32, h: u32)
        ensures
            *final(self) == (Camera {
                aspect: from_int_spec(w as int).div_spec(
                    from_int_spec(
                        if h == 0 {
                            1
                        } else {
                            h as int
                        },
                    ),
                ),
                ..*old(self)
            }),
    {
        let tall: i64 = if h == 0 {
            1
        } else {
            h as i64
        };
        self.aspect = F32::from_int(w as i64).div(F32::from_int(tall));
    }

    pub fn visible_bounds(&self) -> (r: (i32, i32, i32, i32))
        ensures
            r == self.visible_spec(),
    {
        let he: Vec2 = self.half_extents();
        (
            shift(self.center.x.sub(he.x).floor(), -1),
            shift(self.center.y.sub(he.y).floor(), -1),
            shift(self.center.x.add(he.x).ceil(), 1),
            shift(self.center.y.add(he.y).ceil(), 1),
        )
    }

    pub fn sim_bounds(&self) -> (r: (i32, i32, i32, i32))
        ensures
            r == self.sim_spec(),
    {
        let v: (i32, i32, i32, i32) = self.visible_bounds();
        (
            shift(v.0, -SIM_MARGIN),
            shift(v.1, -SIM_MARGIN),
            shift(v.2, SIM_MARGIN),
            shift(v.3, SIM_MARGIN),
        )
    }

    /// Pan with the keys, scaled by zoom.
    pub fn pan(&mut self, keys: Keys, dt: F32)
        ensures
            *final(self) == old(self).panned(keys, dt),
    {
        let step: F32 = self.view_height.mul(F32 { bits: PAN_SPEED }).mul(dt);
        let d: Vec2 = Vec2 { x: pull(keys.left, keys.right), y: pull(keys.up, keys.down) };
        if !d.eq_value(Vec2 { x: F32 { bits: ZERO }, y: F32 { bits: ZERO } }) {
            let unit: Vec2 = d.mul((F32 { bits: ONE }).div(d.length()));
            self.center = self.center.add(unit.mul(step));
        }
    }
}

/// However the wheel is turned, the view stays between the closest and the widest
/// zoom, unless its height is not a number to begin with.
pub proof fn law_zoom_stays_in_range(camera: Camera, factor: F32)
    requires
        !camera.view_height.mul_spec(factor).nan(),
    ensures
        (F32 { bits: MIN_VIEW_HEIGHT }).le_spec(camera.zoomed(factor).view_height),
        camera.zoomed(factor).view_height.le_spec(F32 { bits: MAX_VIEW_HEIGHT }),
{
    reveal(F32::le_spec);
    reveal(F32::lt_spec);
}

} // verus!
