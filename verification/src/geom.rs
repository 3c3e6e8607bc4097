//! Plain geometric values: 2-D/3-D fixed-point vectors, bounding boxes,
//! anchors, and the anchor-shifted box construction.

use vstd::prelude::*;
use crate::fixed::{
    cadd, cmax, cmin, csub, fracmul, in_range, spec_cadd, spec_csub, spec_fracmul, imax, imin,
    COORD_MAX, UV_ONE,
};

verus! {

/// A 2-D point or extent in fixed-point units (`UV_ONE` = 1.0).
#[derive(Clone, Copy, Debug, PartialEq, Eq, Structural)]
pub struct Vec2Fx {
    pub x: i64,
    pub y: i64,
}

/// A 3-D world-space point in fixed-point units; opaque to layout except
/// for identity hashing and host-side projection.
#[derive(Clone, Copy, Debug, PartialEq, Eq, Structural)]
pub struct Vec3Fx {
    pub x: i64,
    pub y: i64,
    pub z: i64,
}

/// An axis-aligned box in normalized coordinates; `min` is the top-left
/// corner (y grows downward), `max` the bottom-right.
#[derive(Clone, Copy, Debug, PartialEq, Eq, Structural)]
pub struct BBox {
    pub min_x: i64,
    pub min_y: i64,
    pub max_x: i64,
    pub max_y: i64,
}

impl Vec2Fx {
    pub open spec fn wf(self) -> bool {
        in_range(self.x as int) && in_range(self.y as int)
    }

    pub fn zero() -> (r: Vec2Fx)
        ensures
            r == (Vec2Fx { x: 0i64, y: 0i64 }),
    {
        Vec2Fx { x: 0, y: 0 }
    }
}

impl Vec3Fx {
    pub open spec fn wf(self) -> bool {
        in_range(self.x as int) && in_range(self.y as int) && in_range(self.z as int)
    }
}

impl BBox {
    pub open spec fn wf(self) -> bool {
        in_range(self.min_x as int) && in_range(self.min_y as int) && in_range(self.max_x as int)
            && in_range(self.max_y as int)
    }

    pub fn zero() -> (r: BBox)
        ensures
            r == (BBox { min_x: 0i64, min_y: 0i64, max_x: 0i64, max_y: 0i64 }),
    {
        BBox { min_x: 0, min_y: 0, max_x: 0, max_y: 0 }
    }

    /// The whole normalized viewport, (0,0)-(1,1).
    pub fn full() -> (r: BBox)
        ensures
            r == spec_full_box(),
    {
        BBox { min_x: 0, min_y: 0, max_x: UV_ONE, max_y: UV_ONE }
    }
}

pub open spec fn spec_full_box() -> BBox {
    BBox { min_x: 0, min_y: 0, max_x: UV_ONE, max_y: UV_ONE }
}

/// The absolute extent of a box on each axis.
pub open spec fn spec_extent(b: BBox) -> Vec2Fx {
    Vec2Fx {
        x: spec_abs_i64(spec_csub(b.max_x as int, b.min_x as int)),
        y: spec_abs_i64(spec_csub(b.max_y as int, b.min_y as int)),
    }
}

pub open spec fn spec_abs_i64(x: int) -> i64 {
    if x >= 0 {
        x as i64
    } else {
        (-x) as i64
    }
}

pub fn extent(b: &BBox) -> (r: Vec2Fx)
    requires
        b.wf(),
    ensures
        r == spec_extent(*b),
        r.wf(),
        r.x >= 0,
        r.y >= 0,
{
    let dx = csub(b.max_x, b.min_x);
    let dy = csub(b.max_y, b.min_y);
    Vec2Fx { x: if dx >= 0 { dx } else { -dx }, y: if dy >= 0 { dy } else { -dy } }
}

/// Whether a box contains a point; both edges inclusive. A box with
/// `max < min` (degenerate input) contains nothing: comparisons fail closed.
pub open spec fn spec_contains(b: BBox, p: Vec2Fx) -> bool {
    b.min_x <= p.x <= b.max_x && b.min_y <= p.y <= b.max_y
}

pub fn contains(b: &BBox, p: Vec2Fx) -> (r: bool)
    ensures
        r == spec_contains(*b, p),
{
    b.min_x <= p.x && p.x <= b.max_x && b.min_y <= p.y && p.y <= b.max_y
}

/// An anchor: a fractional reference point within a box. `(0,0)` is the
/// top-left corner, `(UV_ONE, UV_ONE)` the bottom-right.
#[derive(Clone, Copy, Debug, PartialEq, Eq, Structural)]
pub enum Anchor {
    Center,
    BottomLeft,
    BottomCenter,
    BottomRight,
    CenterLeft,
    CenterRight,
    TopLeft,
    TopCenter,
    TopRight,
    /// Arbitrary fractional point, in `UV_ONE` units.
    Custom(i64, i64),
}

pub open spec fn spec_anchor_x(a: Anchor) -> int {
    match a {
        Anchor::TopLeft | Anchor::CenterLeft | Anchor::BottomLeft => 0,
        Anchor::TopCenter | Anchor::Center | Anchor::BottomCenter => UV_ONE as int / 2,
        Anchor::TopRight | Anchor::CenterRight | Anchor::BottomRight => UV_ONE as int,
        Anchor::Custom(x, _) => x as int,
    }
}

pub open spec fn spec_anchor_y(a: Anchor) -> int {
    match a {
        Anchor::TopLeft | Anchor::TopCenter | Anchor::TopRight => 0,
        Anchor::CenterLeft | Anchor::Center | Anchor::CenterRight => UV_ONE as int / 2,
        Anchor::BottomLeft | Anchor::BottomCenter | Anchor::BottomRight => UV_ONE as int,
        Anchor::Custom(_, y) => y as int,
    }
}

impl Anchor {
    /// Anchor fractions stay within one unit of the box on either side.
    pub open spec fn wf(self) -> bool {
        &&& -(UV_ONE as int) <= spec_anchor_x(self) <= UV_ONE as int
        &&& -(UV_ONE as int) <= spec_anchor_y(self) <= UV_ONE as int
    }

    pub fn frac_x(&self) -> (r: i64)
        ensures
            r as int == spec_anchor_x(*self),
    {
        match *self {
            Anchor::TopLeft | Anchor::CenterLeft | Anchor::BottomLeft => 0,
            Anchor::TopCenter | Anchor::Center | Anchor::BottomCenter => UV_ONE / 2,
            Anchor::TopRight | Anchor::CenterRight | Anchor::BottomRight => UV_ONE,
            Anchor::Custom(x, _) => x,
        }
    }

    pub fn frac_y(&self) -> (r: i64)
        ensures
            r as int == spec_anchor_y(*self),
    {
        match *self {
            Anchor::TopLeft | Anchor::TopCenter | Anchor::TopRight => 0,
            Anchor::CenterLeft | Anchor::Center | Anchor::CenterRight => UV_ONE / 2,
            Anchor::BottomLeft | Anchor::BottomCenter | Anchor::BottomRight => UV_ONE,
            Anchor::Custom(_, y) => y,
        }
    }
}

/// The box of an item of the given size whose position sits at the anchor's
/// fractional point within the box: `min = position - anchor * size`,
/// `max = min + size`.
pub open spec fn spec_get_bbox(size: Vec2Fx, uv_position: Vec2Fx, anchor: Anchor) -> BBox {
    BBox {
        min_x: spec_csub(
            uv_position.x as int,
            spec_fracmul(size.x as int, spec_anchor_x(anchor)),
        ) as i64,
        min_y: spec_csub(
            uv_position.y as int,
            spec_fracmul(size.y as int, spec_anchor_y(anchor)),
        ) as i64,
        max_x: spec_cadd(
            spec_csub(
                uv_position.x as int,
                spec_fracmul(size.x as int, spec_anchor_x(anchor)),
            ),
            size.x as int,
        ) as i64,
        max_y: spec_cadd(
            spec_csub(
                uv_position.y as int,
                spec_fracmul(size.y as int, spec_anchor_y(anchor)),
            ),
            size.y as int,
        ) as i64,
    }
}

pub fn get_bbox(size: Vec2Fx, uv_position: Vec2Fx, anchor: &Anchor) -> (r: BBox)
    requires
        size.wf(),
        uv_position.wf(),
        anchor.wf(),
    ensures
        r == spec_get_bbox(size, uv_position, *anchor),
        r.wf(),
{
    let min_x = csub(uv_position.x, fracmul(size.x, anchor.frac_x()));
    let min_y = csub(uv_position.y, fracmul(size.y, anchor.frac_y()));
    BBox { min_x, min_y, max_x: cadd(min_x, size.x), max_y: cadd(min_y, size.y) }
}

/// Componentwise interpolation from `start` to `end` by fraction `t`.
pub open spec fn spec_lerp2(start: Vec2Fx, end: Vec2Fx, t: Vec2Fx) -> Vec2Fx {
    Vec2Fx {
        x: crate::fixed::spec_lerp(start.x as int, end.x as int, t.x as int) as i64,
        y: crate::fixed::spec_lerp(start.y as int, end.y as int, t.y as int) as i64,
    }
}

pub fn lerp2(start: Vec2Fx, end: Vec2Fx, t: Vec2Fx) -> (r: Vec2Fx)
    requires
        start.wf(),
        end.wf(),
        t.wf(),
    ensures
        r == spec_lerp2(start, end, t),
        r.wf(),
{
    Vec2Fx {
        x: crate::fixed::lerp(start.x, end.x, t.x),
        y: crate::fixed::lerp(start.y, end.y, t.y),
    }
}

} // verus!
