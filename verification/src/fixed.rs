//! Saturating fixed-point coordinate arithmetic.
//!
//! Coordinates, sizes and depths are `i64` values in units of `1 / UV_ONE`.
//! Every operation clamps its result into `[-COORD_MAX, COORD_MAX]`, so a
//! degenerate input can never overflow; it merely saturates at the edge of
//! the representable range.

use vstd::prelude::*;

verus! {

/// One unit (1.0) in fixed-point normalized viewport coordinates.
pub const UV_ONE: i64 = 1_000_000;

/// Largest magnitude any coordinate may take; arithmetic saturates here.
pub const COORD_MAX: i64 = 0x100_0000_0000;

pub open spec fn in_range(x: int) -> bool {
    -(COORD_MAX as int) <= x <= COORD_MAX as int
}

pub open spec fn clamp_coord(x: int) -> int {
    if x > COORD_MAX as int {
        COORD_MAX as int
    } else if x < -(COORD_MAX as int) {
        -(COORD_MAX as int)
    } else {
        x
    }
}

/// Truncated (round-toward-zero) division, total: zero for divisors <= 0.
pub open spec fn tdiv(a: int, b: int) -> int {
    if b <= 0 {
        0
    } else if a >= 0 {
        a / b
    } else {
        -((-a) / b)
    }
}

pub open spec fn spec_cadd(a: int, b: int) -> int {
    clamp_coord(a + b)
}

pub open spec fn spec_csub(a: int, b: int) -> int {
    clamp_coord(a - b)
}

/// Clamped `a * m / d` with truncated division.
pub open spec fn spec_muldiv(a: int, m: int, d: int) -> int {
    clamp_coord(tdiv(a * m, d))
}

pub open spec fn imax(a: int, b: int) -> int {
    if a >= b {
        a
    } else {
        b
    }
}

pub open spec fn imin(a: int, b: int) -> int {
    if a <= b {
        a
    } else {
        b
    }
}

pub open spec fn iabs(a: int) -> int {
    if a >= 0 {
        a
    } else {
        -a
    }
}

pub fn cadd(a: i64, b: i64) -> (r: i64)
    requires
        in_range(a as int),
        in_range(b as int),
    ensures
        r as int == spec_cadd(a as int, b as int),
        in_range(r as int),
{
    let s = a + b;
    if s > COORD_MAX {
        COORD_MAX
    } else if s < -COORD_MAX {
        -COORD_MAX
    } else {
        s
    }
}

pub fn csub(a: i64, b: i64) -> (r: i64)
    requires
        in_range(a as int),
        in_range(b as int),
    ensures
        r as int == spec_csub(a as int, b as int),
        in_range(r as int),
{
    let s = a - b;
    if s > COORD_MAX {
        COORD_MAX
    } else if s < -COORD_MAX {
        -COORD_MAX
    } else {
        s
    }
}

pub fn cmax(a: i64, b: i64) -> (r: i64)
    ensures
        r as int == imax(a as int, b as int),
{
    if a >= b {
        a
    } else {
        b
    }
}

pub fn cmin(a: i64, b: i64) -> (r: i64)
    ensures
        r as int == imin(a as int, b as int),
{
    if a <= b {
        a
    } else {
        b
    }
}

pub fn cabs(a: i64) -> (r: i64)
    requires
        in_range(a as int),
    ensures
        r as int == iabs(a as int),
        in_range(r as int),
{
    if a >= 0 {
        a
    } else {
        -a
    }
}

/// Clamped `a * m / d` with truncated division, computed without overflow.
pub fn muldiv(a: i64, m: i64, d: i64) -> (r: i64)
    requires
        in_range(a as int),
        in_range(m as int),
        0 < d,
    ensures
        r as int == spec_muldiv(a as int, m as int, d as int),
        in_range(r as int),
{
    let neg: bool = if a < 0 { m >= 0 } else { m < 0 };
    let aa: u128 = if a < 0 {
        (-a) as u128
    } else {
        a as u128
    };
    let mm: u128 = if m < 0 {
        (-m) as u128
    } else {
        m as u128
    };
    proof {
        assert(aa as int == iabs(a as int));
        assert(mm as int == iabs(m as int));
        assert(aa as int * mm as int <= COORD_MAX as int * COORD_MAX as int) by (nonlinear_arith)
            requires
                0 <= aa as int <= COORD_MAX as int,
                0 <= mm as int <= COORD_MAX as int,
        ;
    }
    let p: u128 = aa * mm;
    let q: u128 = p / (d as u128);
    proof {
        let prod: int = a as int * m as int;
        assert(p as int == iabs(prod)) by (nonlinear_arith)
            requires
                p as int == aa as int * mm as int,
                aa as int == iabs(a as int),
                mm as int == iabs(m as int),
                prod == a as int * m as int,
        ;
        assert(q as int == iabs(prod) / (d as int));
        assert(neg ==> prod <= 0) by (nonlinear_arith)
            requires
                neg ==> (((a as int) < 0 && m as int >= 0) || (a as int >= 0 && (m as int) < 0)),
                prod == a as int * m as int,
        ;
        assert(!neg ==> prod >= 0) by (nonlinear_arith)
            requires
                !neg ==> (((a as int) < 0 && (m as int) < 0) || (a as int >= 0 && m as int >= 0)),
                prod == a as int * m as int,
        ;
        if neg {
            if prod == 0 {
                assert(q == 0);
                assert(tdiv(prod, d as int) == 0);
            } else {
                assert(iabs(prod) == -prod);
                assert(tdiv(prod, d as int) == -(q as int));
            }
        } else {
            assert(iabs(prod) == prod);
            assert(tdiv(prod, d as int) == q as int);
        }
    }
    if neg {
        if q > COORD_MAX as u128 {
            -COORD_MAX
        } else {
            -(q as i64)
        }
    } else {
        if q > COORD_MAX as u128 {
            COORD_MAX
        } else {
            q as i64
        }
    }
}

/// Clamped multiplication by a fixed-point fraction: `a * f / UV_ONE`.
pub open spec fn spec_fracmul(a: int, f: int) -> int {
    spec_muldiv(a, f, UV_ONE as int)
}

pub fn fracmul(a: i64, f: i64) -> (r: i64)
    requires
        in_range(a as int),
        in_range(f as int),
    ensures
        r as int == spec_fracmul(a as int, f as int),
        in_range(r as int),
{
    muldiv(a, f, UV_ONE)
}

/// Interpolation from `a` to `b` by fraction `t` (in `UV_ONE` units):
/// `a + (b - a) * t / UV_ONE`, saturating at each step.
pub open spec fn spec_lerp(a: int, b: int, t: int) -> int {
    spec_cadd(a, spec_fracmul(spec_csub(b, a), t))
}

pub fn lerp(start: i64, end: i64, t: i64) -> (r: i64)
    requires
        in_range(start as int),
        in_range(end as int),
        in_range(t as int),
    ensures
        r as int == spec_lerp(start as int, end as int, t as int),
        in_range(r as int),
{
    cadd(start, fracmul(csub(end, start), t))
}

} // verus!
