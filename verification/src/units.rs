//! Tagged unit values and their resolution to normalized coordinates.
//!
//! A `Val` payload is in thousandths of its natural unit: `Val::Px(1500)`
//! is 1.5 pixels, `Val::Percent(10_000)` is 10 percent, `Val::Vh(2_000)`
//! is 2 percent of the viewport height. Resolution against a window size
//! (in whole pixels) and a parent extent (in `UV_ONE` units) produces a
//! normalized coordinate; a non-positive window dimension resolves to 0,
//! failing closed on a missing or degenerate window.

use vstd::prelude::*;
use crate::fixed::{in_range, muldiv, spec_muldiv, COORD_MAX, UV_ONE};
use crate::geom::Vec2Fx;

verus! {

/// Payload scale: one natural unit is 1000.
pub const VAL_ONE: i64 = 1000;

/// Payload value of a full (100 percent) relative unit.
pub const VAL_FULL: i64 = 100_000;

/// A tagged layout value, resolved against window and parent extents.
#[derive(Clone, Copy, Debug, PartialEq, Eq, Structural)]
pub enum Val {
    /// Unspecified; resolves to zero.
    Auto,
    /// Physical pixels, in thousandths of a pixel.
    Px(i64),
    /// Percent of the parent extent, in thousandths of a percent.
    Percent(i64),
    /// Percent of the viewport width, in thousandths of a percent.
    Vw(i64),
    /// Percent of the viewport height, in thousandths of a percent.
    Vh(i64),
    /// Percent of the smaller viewport dimension, in thousandths of a percent.
    VMin(i64),
    /// Percent of the larger viewport dimension, in thousandths of a percent.
    VMax(i64),
}

impl Val {
    pub open spec fn wf(self) -> bool {
        match self {
            Val::Auto => true,
            Val::Px(n) => in_range(n as int),
            Val::Percent(n) => in_range(n as int),
            Val::Vw(n) => in_range(n as int),
            Val::Vh(n) => in_range(n as int),
            Val::VMin(n) => in_range(n as int),
            Val::VMax(n) => in_range(n as int),
        }
    }
}

/// `n * m / d` when `d > 0`, else 0 (fail closed on degenerate divisors).
pub open spec fn spec_scale(n: int, m: int, d: int) -> int {
    if d <= 0 {
        0
    } else {
        spec_muldiv(n, m, d)
    }
}

/// Resolve a `Val` along the horizontal axis: the result is a coordinate in
/// `UV_ONE` units of the window width. `window` is in whole pixels,
/// `parent_size` in `UV_ONE` units.
pub open spec fn spec_resolve_x(window: Vec2Fx, v: Val, parent_size: Vec2Fx) -> int {
    match v {
        Val::Auto => 0,
        Val::Px(n) => spec_scale(n as int, VAL_ONE as int, window.x as int),
        Val::Percent(n) => spec_scale(n as int, parent_size.x as int, VAL_FULL as int),
        Val::Vw(n) => spec_scale(n as int, UV_ONE as int, VAL_FULL as int),
        Val::Vh(n) => spec_scale(
            spec_scale(n as int, UV_ONE as int, VAL_FULL as int),
            window.y as int,
            window.x as int,
        ),
        Val::VMin(n) => spec_scale(
            spec_scale(n as int, UV_ONE as int, VAL_FULL as int),
            crate::fixed::imin(window.x as int, window.y as int),
            window.x as int,
        ),
        Val::VMax(n) => spec_scale(
            spec_scale(n as int, UV_ONE as int, VAL_FULL as int),
            crate::fixed::imax(window.x as int, window.y as int),
            window.x as int,
        ),
    }
}

/// Resolve a `Val` along the vertical axis; as `spec_resolve_x` with the
/// window axes swapped.
pub open spec fn spec_resolve_y(window: Vec2Fx, v: Val, parent_size: Vec2Fx) -> int {
    match v {
        Val::Auto => 0,
        Val::Px(n) => spec_scale(n as int, VAL_ONE as int, window.y as int),
        Val::Percent(n) => spec_scale(n as int, parent_size.y as int, VAL_FULL as int),
        Val::Vw(n) => spec_scale(
            spec_scale(n as int, UV_ONE as int, VAL_FULL as int),
            window.x as int,
            window.y as int,
        ),
        Val::Vh(n) => spec_scale(n as int, UV_ONE as int, VAL_FULL as int),
        Val::VMin(n) => spec_scale(
            spec_scale(n as int, UV_ONE as int, VAL_FULL as int),
            crate::fixed::imin(window.x as int, window.y as int),
            window.y as int,
        ),
        Val::VMax(n) => spec_scale(
            spec_scale(n as int, UV_ONE as int, VAL_FULL as int),
            crate::fixed::imax(window.x as int, window.y as int),
            window.y as int,
        ),
    }
}

pub fn scale(n: i64, m: i64, d: i64) -> (r: i64)
    requires
        in_range(n as int),
        in_range(m as int),
    ensures
        r as int == spec_scale(n as int, m as int, d as int),
        in_range(r as int),
{
    if d <= 0 {
        0
    } else {
        muldiv(n, m, d)
    }
}

pub fn resolve_x(window: Vec2Fx, v: Val, parent_size: Vec2Fx) -> (r: i64)
    requires
        window.wf(),
        v.wf(),
        parent_size.wf(),
    ensures
        r as int == spec_resolve_x(window, v, parent_size),
        in_range(r as int),
{
    match v {
        Val::Auto => 0,
        Val::Px(n) => scale(n, VAL_ONE, window.x),
        Val::Percent(n) => scale(n, parent_size.x, VAL_FULL),
        Val::Vw(n) => scale(n, UV_ONE, VAL_FULL),
        Val::Vh(n) => scale(scale(n, UV_ONE, VAL_FULL), window.y, window.x),
        Val::VMin(n) => scale(
            scale(n, UV_ONE, VAL_FULL),
            if window.x <= window.y { window.x } else { window.y },
            window.x,
        ),
        Val::VMax(n) => scale(
            scale(n, UV_ONE, VAL_FULL),
            if window.x >= window.y { window.x } else { window.y },
            window.x,
        ),
    }
}

pub fn resolve_y(window: Vec2Fx, v: Val, parent_size: Vec2Fx) -> (r: i64)
    requires
        window.wf(),
        v.wf(),
        parent_size.wf(),
    ensures
        r as int == spec_resolve_y(window, v, parent_size),
        in_range(r as int),
{
    match v {
        Val::Auto => 0,
        Val::Px(n) => scale(n, VAL_ONE, window.y),
        Val::Percent(n) => scale(n, parent_size.y, VAL_FULL),
        Val::Vw(n) => scale(scale(n, UV_ONE, VAL_FULL), window.x, window.y),
        Val::Vh(n) => scale(n, UV_ONE, VAL_FULL),
        Val::VMin(n) => scale(
            scale(n, UV_ONE, VAL_FULL),
            if window.x <= window.y { window.x } else { window.y },
            window.y,
        ),
        Val::VMax(n) => scale(
            scale(n, UV_ONE, VAL_FULL),
            if window.x >= window.y { window.x } else { window.y },
            window.y,
        ),
    }
}

} // verus!
