//! Fixed-point scalar and vector arithmetic for the simulation.
//!
//! Positions and lengths are carried in micro-units (`SCALE` per world unit),
//! velocities in micro-units per second, times in microseconds. A product of
//! two scaled quantities is brought back to scale with [`mul_scale_down`],
//! which truncates toward zero, as a fixed-point multiply does.

use vstd::prelude::*;

verus! {

/// Fixed-point sub-units per world unit, and microseconds per second.
pub const SCALE: i64 = 1_000_000;

/// Largest magnitude a position coordinate may take, in micro-units.
pub const POS_LIMIT: i64 = 1_000_000_000_000;

/// Largest magnitude a velocity component may take, in micro-units per second.
pub const VEL_LIMIT: i64 = 1_000_000_000_000;

/// Largest magnitude a gravity component may take, in micro-units per second squared.
pub const GRAV_LIMIT: i64 = 1_000_000_000;

/// Largest simulation step size, in microseconds (one second).
pub const DT_LIMIT: i64 = 1_000_000;

/// Largest side length of a collision cube, in micro-units.
pub const SIDE_LIMIT: i64 = 1_000_000_000;

/// A three-component vector of fixed-point coordinates.
#[derive(Clone, Copy, Debug, PartialEq, Eq, Structural)]
pub struct Vec3 {
    pub x: i64,
    pub y: i64,
    pub z: i64,
}

/// A quaternion in fixed-point form, `SCALE` standing for 1.0.
#[derive(Clone, Copy, Debug, PartialEq, Eq, Structural)]
pub struct Quat {
    pub w: i64,
    pub x: i64,
    pub y: i64,
    pub z: i64,
}

impl Vec3 {
    /// Whether every component's magnitude is bounded by `limit`.
    pub open spec fn within(self, limit: int) -> bool {
        -limit <= self.x <= limit && -limit <= self.y <= limit && -limit <= self.z <= limit
    }
}

/// Division by `SCALE` truncated toward zero, the rounding of a fixed-point
/// multiply.
pub open spec fn scale_down(x: int) -> int {
    if x >= 0 {
        x / (SCALE as int)
    } else {
        -((-x) / (SCALE as int))
    }
}

/// `x` forced into the closed interval `[lo, hi]`.
pub open spec fn clamp_spec(x: int, lo: int, hi: int) -> int {
    if x < lo {
        lo
    } else if x > hi {
        hi
    } else {
        x
    }
}

/// Truncating to scale never enlarges a bound on the magnitude.
pub proof fn lemma_scale_down_bound(x: int, m: int)
    requires
        0 <= m,
        -m <= x <= m,
    ensures
        -m <= scale_down(x) <= m,
        -(m / (SCALE as int)) <= scale_down(x) <= m / (SCALE as int),
{
    if x >= 0 {
        vstd::arithmetic::div_mod::lemma_div_is_ordered(x, m, SCALE as int);
        vstd::arithmetic::div_mod::lemma_div_nonincreasing(x, SCALE as int);
        vstd::arithmetic::div_mod::lemma_div_pos_is_pos(x, SCALE as int);
    } else {
        vstd::arithmetic::div_mod::lemma_div_is_ordered(-x, m, SCALE as int);
        vstd::arithmetic::div_mod::lemma_div_nonincreasing(-x, SCALE as int);
        vstd::arithmetic::div_mod::lemma_div_pos_is_pos(-x, SCALE as int);
    }
}

/// A product is bounded by the product of the factors' bounds.
pub proof fn lemma_mul_abs_bound(a: int, b: int, aa: int, bb: int)
    by (nonlinear_arith)
    requires
        0 <= aa,
        0 <= bb,
        -aa <= a <= aa,
        -bb <= b <= bb,
    ensures
        -(aa * bb) <= a * b <= aa * bb,
{
}

/// `a * b / SCALE`, truncated toward zero.
pub fn mul_scale_down(a: i64, b: i64) -> (r: i64)
    requires
        -0x7fff_ffff_ffff_ffff <= (a as int) * (b as int) <= 0x7fff_ffff_ffff_ffff,
    ensures
        r == scale_down((a as int) * (b as int)),
{
    proof {
        assert((a as int) * (b as int) == (a as i128 as int) * (b as i128 as int));
    }
    let prod: i128 = (a as i128) * (b as i128);
    if prod >= 0 {
        let q: u128 = (prod as u128) / 1_000_000;
        proof {
            vstd::arithmetic::div_mod::lemma_div_is_ordered(
                prod as int,
                0x7fff_ffff_ffff_ffff,
                SCALE as int,
            );
            vstd::arithmetic::div_mod::lemma_div_pos_is_pos(prod as int, SCALE as int);
        }
        q as i64
    } else {
        let q: u128 = ((-prod) as u128) / 1_000_000;
        proof {
            vstd::arithmetic::div_mod::lemma_div_is_ordered(
                -(prod as int),
                0x7fff_ffff_ffff_ffff,
                SCALE as int,
            );
            vstd::arithmetic::div_mod::lemma_div_pos_is_pos(-(prod as int), SCALE as int);
        }
        -(q as i64)
    }
}

/// `x` forced into `[lo, hi]`.
pub fn clamp_i64(x: i64, lo: i64, hi: i64) -> (r: i64)
    requires
        lo <= hi,
    ensures
        r == clamp_spec(x as int, lo as int, hi as int),
{
    if x < lo {
        lo
    } else if x > hi {
        hi
    } else {
        x
    }
}

} // verus!
