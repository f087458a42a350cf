//! Vectors, points and parametrized lines on integer coordinates.
//!
//! A coordinate is an `i64`; a line parameter is fixed-point, with
//! `PARAM_ONE` standing for 1. A point on a line is found by truncating the
//! scaled offset toward zero.

use vstd::prelude::*;
use crate::arith::{abs, trunc_div, div_toward_zero, lemma_mul_bound, lemma_trunc_div_bound};
use vstd::arithmetic::div_mod::{lemma_div_multiples_vanish, lemma_fundamental_div_mod, lemma_mod_pos_bound};

verus! {

/// Largest magnitude of a coordinate that the line solver accepts.
pub const COORD_LIMIT: i64 = 1048576;

/// The fixed-point value of the parameter 1.
pub const PARAM_ONE: i64 = 100000;

/// Largest magnitude of a parameter at which a point of a line is computed.
pub const PARAM_LIMIT: i64 = 500000000000000000;

/// A vector, or a point taken as its offset from the origin.
#[derive(Clone, Copy, Debug, PartialEq, Eq, Structural)]
pub struct V2 {
    pub x: i64,
    pub y: i64,
}

/// A point of the plane.
pub type P2 = V2;

pub open spec fn in_limit(c: int) -> bool {
    -COORD_LIMIT <= c <= COORD_LIMIT
}

pub open spec fn v2_in_limit(v: V2) -> bool {
    in_limit(v.x as int) && in_limit(v.y as int)
}

pub open spec fn spec_dot(a: V2, b: V2) -> int {
    a.x * b.x + a.y * b.y
}

/// The coordinate at parameter `t` of a line through `s` with stride `d`.
pub open spec fn at_coord(s: int, d: int, t: int) -> int {
    s + trunc_div(t * d, PARAM_ONE as int)
}

/// `r` is the square root of `s`, rounded down.
pub open spec fn is_floor_sqrt(r: int, s: int) -> bool {
    0 <= r && r * r <= s && s < (r + 1) * (r + 1)
}

/// The square root of `s`, rounded down.
pub open spec fn floor_sqrt(s: int) -> int {
    choose|r: int| #[trigger] is_floor_sqrt(r, s)
}

/// Every natural number has a square root rounded down.
pub proof fn lemma_floor_sqrt_exists(s: int)
    requires
        0 <= s,
    ensures
        exists|r: int| is_floor_sqrt(r, s),
    decreases s,
{
    if s == 0 {
        assert(is_floor_sqrt(0, 0));
    } else {
        lemma_floor_sqrt_exists(s - 1);
        let r = choose|r: int| #[trigger] is_floor_sqrt(r, s - 1);
        if (r + 1) * (r + 1) <= s {
            assert(s < (r + 2) * (r + 2)) by (nonlinear_arith)
                requires
                    s - 1 < (r + 1) * (r + 1),
                    0 <= r,
            ;
            assert(is_floor_sqrt(r + 1, s));
        } else {
            assert(is_floor_sqrt(r, s));
        }
    }
}

/// The square root rounded down is the only one.
pub proof fn lemma_floor_sqrt(r: int, s: int)
    requires
        is_floor_sqrt(r, s),
    ensures
        floor_sqrt(s) == r,
{
    let q = floor_sqrt(s);
    assert(is_floor_sqrt(q, s));
    if q < r {
        assert((q + 1) * (q + 1) <= r * r) by (nonlinear_arith)
            requires
                0 <= q,
                q + 1 <= r,
        ;
    }
    if r < q {
        assert((r + 1) * (r + 1) <= q * q) by (nonlinear_arith)
            requires
                0 <= r,
                r + 1 <= q,
        ;
    }
}

/// The length of `v` in fixed point (times `PARAM_ONE`), rounded down.
pub open spec fn fixed_len(v: V2) -> int {
    floor_sqrt((v.x * v.x + v.y * v.y) * (PARAM_ONE * PARAM_ONE))
}

/// Coordinate `c` of `v` divided by the length of `v`, in fixed point
/// (times `PARAM_ONE`) and truncated toward zero; 0 for the zero vector.
pub open spec fn unit_coord(c: int, v: V2) -> int {
    if v.x == 0 && v.y == 0 {
        0
    } else {
        trunc_div(c * (PARAM_ONE * PARAM_ONE), fixed_len(v))
    }
}

/// `d` is the unit vector along `v` in fixed point: `PARAM_ONE` stands
/// for length 1, and each coordinate is truncated toward zero. The zero
/// vector has the zero vector as its direction.
pub open spec fn is_direction_of(d: V2, v: V2) -> bool {
    d.x == unit_coord(v.x as int, v) && d.y == unit_coord(v.y as int, v)
}

/// A fixed-point direction has no coordinate beyond `PARAM_ONE`, and the
/// fixed-point length of a nonzero vector is at least `PARAM_ONE`.
pub proof fn lemma_direction_bound(v: V2)
    ensures
        abs(unit_coord(v.x as int, v)) <= PARAM_ONE,
        abs(unit_coord(v.y as int, v)) <= PARAM_ONE,
        !(v.x == 0 && v.y == 0) ==> fixed_len(v) >= PARAM_ONE && is_floor_sqrt(
            fixed_len(v),
            (v.x * v.x + v.y * v.y) * (PARAM_ONE * PARAM_ONE),
        ),
{
    if !(v.x == 0 && v.y == 0) {
        let (x, y) = (v.x as int, v.y as int);
        let one = PARAM_ONE as int;
        let s = (x * x + y * y) * (one * one);
        assert(s >= 0) by (nonlinear_arith)
            requires
                s == (x * x + y * y) * (one * one),
        ;
        lemma_floor_sqrt_exists(s);
        let l = fixed_len(v);
        assert(is_floor_sqrt(l, s));
        assert(x * x + y * y >= 1) by (nonlinear_arith)
            requires
                !(x == 0 && y == 0),
        ;
        assert(l >= one) by (nonlinear_arith)
            requires
                s == (x * x + y * y) * (one * one),
                x * x + y * y >= 1,
                s < (l + 1) * (l + 1),
                l >= 0,
                one > 0,
        ;
        assert(abs(x) * one <= l) by (nonlinear_arith)
            requires
                s == (x * x + y * y) * (one * one),
                s < (l + 1) * (l + 1),
                l >= 0,
                one > 0,
        ;
        assert(abs(y) * one <= l) by (nonlinear_arith)
            requires
                s == (x * x + y * y) * (one * one),
                s < (l + 1) * (l + 1),
                l >= 0,
                one > 0,
        ;
        assert(abs(x * (one * one)) <= one * abs(l)) by (nonlinear_arith)
            requires
                abs(x) * one <= l,
                one > 0,
        ;
        assert(abs(y * (one * one)) <= one * abs(l)) by (nonlinear_arith)
            requires
                abs(y) * one <= l,
                one > 0,
        ;
        lemma_trunc_div_bound(x * (one * one), l, one);
        lemma_trunc_div_bound(y * (one * one), l, one);
    }
}

/// `q` is `a` divided by `l`, rounded down: `q l <= a < (q + 1) l`.
proof fn lemma_floor_div(a: int, l: int)
    requires
        0 <= a,
        0 < l,
    ensures
        (a / l) * l <= a < (a / l + 1) * l,
        a / l >= 0,
{
    lemma_fundamental_div_mod(a, l);
    lemma_mod_pos_bound(a, l);
    assert((a / l) * l == l * (a / l)) by (nonlinear_arith);
    assert((a / l + 1) * l == l * (a / l) + l) by (nonlinear_arith);
    assert(a / l >= 0) by (nonlinear_arith)
        requires
            a == l * (a / l) + a % l,
            0 <= a % l < l,
            0 <= a,
    ;
}

/// The direction of a nonzero vector is a unit vector within rounding: its
/// squared fixed-point length is below `(PARAM_ONE + 1)^2` and above
/// `PARAM_ONE^2 - 4 PARAM_ONE - 2`.
pub proof fn lemma_direction_near_unit(v: V2)
    requires
        !(v.x == 0 && v.y == 0),
    ensures
        unit_coord(v.x as int, v) * unit_coord(v.x as int, v) + unit_coord(v.y as int, v) * unit_coord(
            v.y as int,
            v,
        ) < (PARAM_ONE + 1) * (PARAM_ONE + 1),
        unit_coord(v.x as int, v) * unit_coord(v.x as int, v) + unit_coord(v.y as int, v) * unit_coord(
            v.y as int,
            v,
        ) > PARAM_ONE * PARAM_ONE - 4 * PARAM_ONE - 2,
{
    lemma_direction_bound(v);
    let one = PARAM_ONE as int;
    let c = one * one;
    let (x, y) = (v.x as int, v.y as int);
    let l = fixed_len(v);
    let s = (x * x + y * y) * c;
    let (ax, ay) = (abs(x) * c, abs(y) * c);
    assert(ax >= 0 && ay >= 0) by (nonlinear_arith)
        requires
            ax == abs(x) * c,
            ay == abs(y) * c,
            c > 0,
    ;
    assert(abs(x * c) == ax && abs(y * c) == ay) by (nonlinear_arith)
        requires
            ax == abs(x) * c,
            ay == abs(y) * c,
            c > 0,
    ;
    lemma_floor_div(ax, l);
    lemma_floor_div(ay, l);
    let (qx, qy) = (ax / l, ay / l);
    let dx = unit_coord(x, v);
    let dy = unit_coord(y, v);
    assert(dx * dx == qx * qx && dy * dy == qy * qy) by (nonlinear_arith)
        requires
            dx == qx || dx == -qx,
            dy == qy || dy == -qy,
    ;
    // Both squares of the rounded-down parts bracket the exact ones.
    assert(qx * qx * (l * l) <= ax * ax && qy * qy * (l * l) <= ay * ay) by (nonlinear_arith)
        requires
            qx * l <= ax,
            qy * l <= ay,
            qx >= 0,
            qy >= 0,
            l > 0,
    ;
    assert(ax * ax < (qx + 1) * (qx + 1) * (l * l) && ay * ay < (qy + 1) * (qy + 1) * (l * l))
        by (nonlinear_arith)
        requires
            ax < (qx + 1) * l,
            ay < (qy + 1) * l,
            ax >= 0,
            ay >= 0,
            l > 0,
    ;
    assert(ax * ax + ay * ay == s * c) by (nonlinear_arith)
        requires
            ax == abs(x) * c,
            ay == abs(y) * c,
            s == (x * x + y * y) * c,
    ;
    let qq = qx * qx + qy * qy;
    assert(qq * (l * l) == qx * qx * (l * l) + qy * qy * (l * l)) by (nonlinear_arith)
        requires
            qq == qx * qx + qy * qy,
    ;
    assert(((qx + 1) * (qx + 1) + (qy + 1) * (qy + 1)) * (l * l) == (qx + 1) * (qx + 1) * (l * l) + (qy + 1) * (
    qy + 1) * (l * l)) by (nonlinear_arith);
    // Upper bound.
    assert(qq * (l * l) < (l + 1) * (l + 1) * c) by (nonlinear_arith)
        requires
            qq * (l * l) <= s * c,
            s < (l + 1) * (l + 1),
            c > 0,
    ;
    assert(qq < (one + 1) * (one + 1)) by (nonlinear_arith)
        requires
            qq * (l * l) < (l + 1) * (l + 1) * (one * one),
            l >= one,
            one > 0,
            qq >= 0,
    ;
    // Lower bound.
    assert((qx + 1) * (qx + 1) + (qy + 1) * (qy + 1) > c) by (nonlinear_arith)
        requires
            ax * ax + ay * ay < ((qx + 1) * (qx + 1) + (qy + 1) * (qy + 1)) * (l * l),
            ax * ax + ay * ay == s * c,
            l * l <= s,
            l > 0,
            c > 0,
    ;
    assert(qx <= one && qy <= one);
    assert(qq > c - 4 * one - 2) by (nonlinear_arith)
        requires
            (qx + 1) * (qx + 1) + (qy + 1) * (qy + 1) > c,
            qq == qx * qx + qy * qy,
            0 <= qx <= one,
            0 <= qy <= one,
    ;
}

/// The direction of a horizontal or vertical vector is exactly the unit
/// vector along it.
pub proof fn lemma_axis_direction(v: V2)
    ensures
        v.y == 0 && v.x > 0 ==> unit_coord(v.x as int, v) == PARAM_ONE && unit_coord(v.y as int, v) == 0,
        v.y == 0 && v.x < 0 ==> unit_coord(v.x as int, v) == -PARAM_ONE && unit_coord(v.y as int, v) == 0,
        v.x == 0 && v.y > 0 ==> unit_coord(v.x as int, v) == 0 && unit_coord(v.y as int, v) == PARAM_ONE,
        v.x == 0 && v.y < 0 ==> unit_coord(v.x as int, v) == 0 && unit_coord(v.y as int, v) == -PARAM_ONE,
{
    let one = PARAM_ONE as int;
    let (x, y) = (v.x as int, v.y as int);
    if (y == 0 && x != 0) || (x == 0 && y != 0) {
        let c = if y == 0 { x } else { y };
        let l = abs(c) * one;
        let s = (x * x + y * y) * (one * one);
        assert(s == l * l) by (nonlinear_arith)
            requires
                (y == 0 && c == x) || (x == 0 && c == y),
                l == abs(c) * one,
                s == (x * x + y * y) * (one * one),
        ;
        assert(l * l <= s && s < (l + 1) * (l + 1)) by (nonlinear_arith)
            requires
                s == l * l,
                l >= 0,
        ;
        lemma_floor_sqrt(l, s);
        assert(l > 0) by (nonlinear_arith)
            requires
                c != 0,
                l == abs(c) * one,
                one > 0,
        ;
        assert(abs(c * (one * one)) == one * l) by (nonlinear_arith)
            requires
                l == abs(c) * one,
                one > 0,
        ;
        lemma_div_multiples_vanish(one, l);
        assert(abs(0 * (one * one)) / abs(l) == 0) by (nonlinear_arith)
            requires
                l > 0,
        ;
    }
}

impl V2 {
    pub fn new(x: i64, y: i64) -> (r: V2)
        ensures
            r.x == x,
            r.y == y,
    {
        V2 { x, y }
    }
}

/// The vector turned a quarter to the left.
pub fn left(v: V2) -> (r: V2)
    requires
        v.y > i64::MIN,
    ensures
        r.x == -v.y,
        r.y == v.x,
{
    V2 { x: -v.y, y: v.x }
}

/// The vector turned a quarter to the right.
pub fn right(v: V2) -> (r: V2)
    requires
        v.x > i64::MIN,
    ensures
        r.x == v.y,
        r.y == -v.x,
{
    V2 { x: v.y, y: -v.x }
}

/// Dot product.
pub fn dot(a: V2, b: V2) -> (r: i64)
    requires
        v2_in_limit(a),
        v2_in_limit(b),
    ensures
        r == spec_dot(a, b),
{
    proof {
        lemma_mul_bound(a.x as int, b.x as int, COORD_LIMIT as int, COORD_LIMIT as int);
        lemma_mul_bound(a.y as int, b.y as int, COORD_LIMIT as int, COORD_LIMIT as int);
    }
    a.x * b.x + a.y * b.y
}

/// First coordinate of `PARAM_ONE^2 v - 2 (n . v) n`: the mirror image of
/// `v` about the line with fixed-point unit normal `n`, scaled by
/// `PARAM_ONE^2`.
pub open spec fn mirror_x(v: V2, n: V2) -> int {
    PARAM_ONE * PARAM_ONE * v.x - 2 * spec_dot(n, v) * n.x
}

/// Second coordinate of `PARAM_ONE^2 v - 2 (n . v) n`.
pub open spec fn mirror_y(v: V2, n: V2) -> int {
    PARAM_ONE * PARAM_ONE * v.y - 2 * spec_dot(n, v) * n.y
}

/// First coordinate of the mirror image, truncated toward zero.
pub open spec fn reflect_x(v: V2, n: V2) -> int {
    trunc_div(mirror_x(v, n), PARAM_ONE * PARAM_ONE)
}

/// Second coordinate of the mirror image, truncated toward zero.
pub open spec fn reflect_y(v: V2, n: V2) -> int {
    trunc_div(mirror_y(v, n), PARAM_ONE * PARAM_ONE)
}

/// Mirroring about a unit normal keeps the length of a vector: with `n` of
/// fixed-point length exactly `PARAM_ONE`, the scaled mirror image has
/// `PARAM_ONE^2` times the length of `v`.
pub proof fn lemma_reflect_keeps_length(v: V2, n: V2)
    requires
        spec_dot(n, n) == PARAM_ONE * PARAM_ONE,
    ensures
        mirror_x(v, n) * mirror_x(v, n) + mirror_y(v, n) * mirror_y(v, n) == (PARAM_ONE * PARAM_ONE) * (
        PARAM_ONE * PARAM_ONE) * spec_dot(v, v),
{
    lemma_mirror_square(PARAM_ONE * PARAM_ONE, v.x as int, v.y as int, n.x as int, n.y as int);
}

proof fn lemma_square_part(c: int, k: int, v: int, n: int)
    ensures
        (c * v - 2 * k * n) * (c * v - 2 * k * n) == c * c * (v * v) - 4 * c * k * (n * v) + 4 * (k * k) * (n
            * n),
{
    let a = c * v;
    let b = 2 * k * n;
    assert((a - b) * (a - b) == a * a - 2 * a * b + b * b) by (nonlinear_arith);
    assert(a * a == c * c * (v * v)) by (nonlinear_arith)
        requires
            a == c * v,
    ;
    assert(2 * a * b == 4 * c * k * (n * v)) by (nonlinear_arith)
        requires
            a == c * v,
            b == 2 * k * n,
    ;
    assert(b * b == 4 * (k * k) * (n * n)) by (nonlinear_arith)
        requires
            b == 2 * k * n,
    ;
}

proof fn lemma_mirror_square(c: int, vx: int, vy: int, nx: int, ny: int)
    requires
        nx * nx + ny * ny == c,
    ensures
        (c * vx - 2 * (nx * vx + ny * vy) * nx) * (c * vx - 2 * (nx * vx + ny * vy) * nx) + (c * vy - 2 * (nx
            * vx + ny * vy) * ny) * (c * vy - 2 * (nx * vx + ny * vy) * ny) == c * c * (vx * vx + vy * vy),
{
    let k = nx * vx + ny * vy;
    lemma_square_part(c, k, vx, nx);
    lemma_square_part(c, k, vy, ny);
    assert(4 * c * k * (nx * vx) + 4 * c * k * (ny * vy) == 4 * c * (k * k)) by (nonlinear_arith)
        requires
            k == nx * vx + ny * vy,
    ;
    assert(4 * (k * k) * (nx * nx) + 4 * (k * k) * (ny * ny) == 4 * c * (k * k)) by (nonlinear_arith)
        requires
            nx * nx + ny * ny == c,
    ;
    assert(c * c * (vx * vx) + c * c * (vy * vy) == c * c * (vx * vx + vy * vy)) by (nonlinear_arith);
}

/// Mirror image of `v` about the line whose fixed-point unit normal is
/// `n`, each coordinate truncated toward zero.
pub fn reflect(v: V2, n: V2) -> (r: V2)
    requires
        v2_in_limit(v),
        abs(n.x as int) <= PARAM_ONE,
        abs(n.y as int) <= PARAM_ONE,
    ensures
        r.x == reflect_x(v, n),
        r.y == reflect_y(v, n),
        abs(r.x as int) <= 5 * COORD_LIMIT,
        abs(r.y as int) <= 5 * COORD_LIMIT,
        abs(r.x * (PARAM_ONE * PARAM_ONE) - mirror_x(v, n)) < PARAM_ONE * PARAM_ONE,
        abs(r.y * (PARAM_ONE * PARAM_ONE) - mirror_y(v, n)) < PARAM_ONE * PARAM_ONE,
{
    let one = PARAM_ONE as i128;
    let c: i128 = one * one;
    proof {
        lemma_mul_bound(n.x as int, v.x as int, PARAM_ONE as int, COORD_LIMIT as int);
        lemma_mul_bound(n.y as int, v.y as int, PARAM_ONE as int, COORD_LIMIT as int);
    }
    let k: i128 = (n.x as i128) * (v.x as i128) + (n.y as i128) * (v.y as i128);
    proof {
        let kb = 2 * PARAM_ONE * COORD_LIMIT;
        lemma_mul_bound(k as int, n.x as int, kb, PARAM_ONE as int);
        lemma_mul_bound(k as int, n.y as int, kb, PARAM_ONE as int);
        lemma_mul_bound(c as int, v.x as int, c as int, COORD_LIMIT as int);
        lemma_mul_bound(c as int, v.y as int, c as int, COORD_LIMIT as int);
        assert(2 * k * n.x == 2 * (k * n.x) && 2 * k * n.y == 2 * (k * n.y)) by (nonlinear_arith);
        let mx = c * v.x - 2 * (k * n.x);
        let my = c * v.y - 2 * (k * n.y);
        assert(abs(mx) <= 5 * COORD_LIMIT * c);
        assert(abs(my) <= 5 * COORD_LIMIT * c);
        lemma_trunc_div_bound(mx, c as int, 5 * COORD_LIMIT);
        lemma_trunc_div_bound(my, c as int, 5 * COORD_LIMIT);
    }
    let mx: i128 = c * (v.x as i128) - 2 * (k * (n.x as i128));
    let my: i128 = c * (v.y as i128) - 2 * (k * (n.y as i128));
    proof {
        lemma_trunc_div_error(mx as int, c as int);
        lemma_trunc_div_error(my as int, c as int);
    }
    V2 { x: div_toward_zero(mx, c) as i64, y: div_toward_zero(my, c) as i64 }
}

/// Linear interpolation from `a` (at 0) to `b` (at `PARAM_ONE`).
pub fn lerp(a: i64, b: i64, t: i64) -> (r: i64)
    requires
        in_limit(a as int),
        in_limit(b as int),
        0 <= t <= PARAM_ONE,
    ensures
        r == at_coord(a as int, b - a, t as int),
{
    let d: i128 = (b as i128) - (a as i128);
    proof {
        lemma_mul_bound(t as int, d as int, PARAM_ONE as int, 2 * COORD_LIMIT);
        lemma_trunc_div_bound(t * d, PARAM_ONE as int, 2 * COORD_LIMIT);
    }
    let q: i128 = div_toward_zero((t as i128) * d, PARAM_ONE as i128);
    (a as i128 + q) as i64
}

/// The vector `v` scaled by the fixed-point factor `t`, each coordinate
/// truncated toward zero.
pub fn scaled(v: V2, t: i64) -> (r: V2)
    requires
        v2_in_limit(v),
        0 <= t <= PARAM_ONE,
    ensures
        r.x == trunc_div(v.x * t, PARAM_ONE as int),
        r.y == trunc_div(v.y * t, PARAM_ONE as int),
        abs(r.x as int) <= abs(v.x as int),
        abs(r.y as int) <= abs(v.y as int),
        v2_in_limit(r),
{
    proof {
        lemma_mul_bound(v.x as int, t as int, abs(v.x as int), PARAM_ONE as int);
        lemma_mul_bound(v.y as int, t as int, abs(v.y as int), PARAM_ONE as int);
        lemma_trunc_div_bound(v.x * t, PARAM_ONE as int, abs(v.x as int));
        lemma_trunc_div_bound(v.y * t, PARAM_ONE as int, abs(v.y as int));
    }
    let qx: i128 = div_toward_zero((v.x as i128) * (t as i128), PARAM_ONE as i128);
    let qy: i128 = div_toward_zero((v.y as i128) * (t as i128), PARAM_ONE as i128);
    V2 { x: qx as i64, y: qy as i64 }
}

/// The square root of `s`, rounded down, by bisection.
pub fn floor_sqrt_u128(s: u128) -> (r: u128)
    requires
        s < 0x1_0000_0000_0000_0000_0000,
    ensures
        is_floor_sqrt(r as int, s as int),
{
    let mut lo: u128 = 0;
    let mut hi: u128 = 0x100_0000_0000;
    while hi - lo > 1
        invariant
            lo < hi <= 0x100_0000_0000,
            lo * lo <= s,
            s < hi * hi,
        decreases hi - lo,
    {
        let mid: u128 = lo + (hi - lo) / 2;
        proof {
            assert(mid * mid <= 0x1_0000_0000_0000_0000_0000) by (nonlinear_arith)
                requires
                    mid < 0x100_0000_0000,
            ;
        }
        if mid * mid <= s {
            lo = mid;
        } else {
            hi = mid;
        }
    }
    lo
}

/// The unit vector along `v` in fixed point (see `is_direction_of`).
pub fn direction_of(v: V2) -> (r: V2)
    requires
        v2_in_limit(v),
    ensures
        is_direction_of(r, v),
        abs(r.x as int) <= PARAM_ONE,
        abs(r.y as int) <= PARAM_ONE,
        !(v.x == 0 && v.y == 0) ==> PARAM_ONE * PARAM_ONE - 4 * PARAM_ONE - 2 < r.x * r.x + r.y * r.y < (
        PARAM_ONE + 1) * (PARAM_ONE + 1),
{
    proof {
        lemma_direction_bound(v);
        if !(v.x == 0 && v.y == 0) {
            lemma_direction_near_unit(v);
        }
    }
    if v.x == 0 && v.y == 0 {
        return V2 { x: 0, y: 0 };
    }
    let one: i128 = PARAM_ONE as i128;
    proof {
        lemma_mul_bound(v.x as int, v.x as int, COORD_LIMIT as int, COORD_LIMIT as int);
        lemma_mul_bound(v.y as int, v.y as int, COORD_LIMIT as int, COORD_LIMIT as int);
        assert(v.x * v.x >= 0 && v.y * v.y >= 0) by (nonlinear_arith);
    }
    let sq: i128 = (v.x as i128) * (v.x as i128) + (v.y as i128) * (v.y as i128);
    proof {
        assert(sq * (one * one) < 0x1_0000_0000_0000_0000_0000) by (nonlinear_arith)
            requires
                0 <= sq <= 2 * COORD_LIMIT * COORD_LIMIT,
                one == PARAM_ONE,
        ;
        assert(sq * (one * one) >= 0) by (nonlinear_arith)
            requires
                0 <= sq,
        ;
    }
    let s: i128 = sq * (one * one);
    let l: u128 = floor_sqrt_u128(s as u128);
    proof {
        lemma_floor_sqrt(l as int, s as int);
        assert(l as int == fixed_len(v));
        assert(l <= 0x100_0000_0000) by (nonlinear_arith)
            requires
                l * l <= s,
                s < 0x1_0000_0000_0000_0000_0000,
                l >= 0,
        ;
        lemma_mul_bound(v.x as int, one * one, COORD_LIMIT as int, one * one);
        lemma_mul_bound(v.y as int, one * one, COORD_LIMIT as int, one * one);
    }
    let dx: i128 = div_toward_zero((v.x as i128) * (one * one), l as i128);
    let dy: i128 = div_toward_zero((v.y as i128) * (one * one), l as i128);
    V2 { x: dx as i64, y: dy as i64 }
}

/// An infinite line through `source`, advancing by `stride` per unit of
/// parameter.
#[derive(Clone, Copy, Debug, PartialEq, Eq, Structural)]
pub struct Line {
    pub source: P2,
    pub stride: V2,
}

pub open spec fn line_in_limit(l: Line) -> bool {
    v2_in_limit(l.source) && v2_in_limit(l.stride)
}

/// The 2x2 determinant of the system `a.at(lambda) == b.at(mu)`.
pub open spec fn det(a: Line, b: Line) -> int {
    b.stride.y * a.stride.x - b.stride.x * a.stride.y
}

/// Fixed-point parameter on `a` of the crossing point of `a` and `b`.
pub open spec fn lambda_of(a: Line, b: Line) -> int {
    let ox = b.source.x - a.source.x;
    let oy = b.source.y - a.source.y;
    trunc_div((b.stride.y * ox - b.stride.x * oy) * PARAM_ONE, det(a, b))
}

/// Fixed-point parameter on `b` of the crossing point of `a` and `b`.
pub open spec fn mu_of(a: Line, b: Line) -> int {
    let ox = b.source.x - a.source.x;
    let oy = b.source.y - a.source.y;
    trunc_div((a.stride.y * ox - a.stride.x * oy) * PARAM_ONE, det(a, b))
}

/// `p` is the point of `l` at parameter `t`.
pub open spec fn is_point_at(p: P2, l: Line, t: int) -> bool {
    p.x == at_coord(l.source.x as int, l.stride.x as int, t)
        && p.y == at_coord(l.source.y as int, l.stride.y as int, t)
}

fn coord_at(s: i64, d: i64, t: i64) -> (r: i64)
    requires
        in_limit(s as int),
        in_limit(d as int),
        -PARAM_LIMIT <= t <= PARAM_LIMIT,
    ensures
        r == at_coord(s as int, d as int, t as int),
{
    proof {
        lemma_mul_bound(t as int, d as int, PARAM_LIMIT as int, COORD_LIMIT as int);
        assert(PARAM_LIMIT * COORD_LIMIT == 5242880000000000000 * PARAM_ONE);
        lemma_trunc_div_bound(t * d, PARAM_ONE as int, 5242880000000000000);
    }
    let q: i128 = div_toward_zero((t as i128) * (d as i128), PARAM_ONE as i128);
    (s as i128 + q) as i64
}

impl Line {
    pub fn new(source: P2, stride: V2) -> (r: Line)
        ensures
            r.source == source,
            r.stride == stride,
    {
        Line { source, stride }
    }

    /// The point at parameter `t`.
    pub fn at(&self, t: i64) -> (r: P2)
        requires
            line_in_limit(*self),
            -PARAM_LIMIT <= t <= PARAM_LIMIT,
        ensures
            is_point_at(r, *self, t as int),
    {
        V2 {
            x: coord_at(self.source.x, self.stride.x, t),
            y: coord_at(self.source.y, self.stride.y, t),
        }
    }
}

/// Something that lies along a line and admits a set of parameters on it:
/// the whole line, a ray or a segment.
pub trait Linear {
    /// The line it lies on.
    spec fn spec_line(&self) -> Line;

    /// Whether the fixed-point parameter `t` lies in its domain.
    spec fn spec_on(&self, t: int) -> bool;

    fn whole_line(&self) -> (r: Line)
        ensures
            r == self.spec_line(),
    ;

    fn parameter_on(&self, t: i64) -> (r: bool)
        ensures
            r == self.spec_on(t as int),
    ;

    fn stride(&self) -> (r: V2)
        ensures
            r == self.spec_line().stride,
    {
        self.whole_line().stride
    }

    /// The unit vector along the stride, in fixed point.
    fn direction(&self) -> (r: V2)
        requires
            line_in_limit(self.spec_line()),
        ensures
            is_direction_of(r, self.spec_line().stride),
            abs(r.x as int) <= PARAM_ONE,
            abs(r.y as int) <= PARAM_ONE,
            !(self.spec_line().stride.x == 0 && self.spec_line().stride.y == 0) ==> PARAM_ONE * PARAM_ONE - 4
                * PARAM_ONE - 2 < r.x * r.x + r.y * r.y < (PARAM_ONE + 1) * (PARAM_ONE + 1),
    {
        direction_of(self.stride())
    }

    /// The offset of `p` from the source, dotted with the stride.
    fn project(&self, p: P2) -> (r: i64)
        requires
            line_in_limit(self.spec_line()),
            v2_in_limit(p),
        ensures
            r == (p.x - self.spec_line().source.x) * self.spec_line().stride.x
                + (p.y - self.spec_line().source.y) * self.spec_line().stride.y,
    {
        let line = self.whole_line();
        let vx: i64 = p.x - line.source.x;
        let vy: i64 = p.y - line.source.y;
        proof {
            lemma_mul_bound(vx as int, line.stride.x as int, 2 * COORD_LIMIT, COORD_LIMIT as int);
            lemma_mul_bound(vy as int, line.stride.y as int, 2 * COORD_LIMIT, COORD_LIMIT as int);
        }
        vx * line.stride.x + vy * line.stride.y
    }

}

/// Where `a` and `b` cross: the parameter on each and the point.
/// There is a crossing when the lines are not parallel and each
/// parameter lies in its own domain.
pub fn intersect<A: Linear, B: Linear>(a: &A, b: &B) -> (r: Option<(i64, i64, P2)>)
    requires
        line_in_limit(a.spec_line()),
        line_in_limit(b.spec_line()),
    ensures
        r is Some <==> det(a.spec_line(), b.spec_line()) != 0
            && a.spec_on(lambda_of(a.spec_line(), b.spec_line()))
            && b.spec_on(mu_of(a.spec_line(), b.spec_line())),
        r matches Some((lambda, mu, p)) ==> {
            &&& lambda == lambda_of(a.spec_line(), b.spec_line())
            &&& mu == mu_of(a.spec_line(), b.spec_line())
            &&& is_point_at(p, a.spec_line(), lambda as int)
        },
{
    let la = a.whole_line();
    let lb = b.whole_line();
    proof {
        let l = COORD_LIMIT as int;
        lemma_mul_bound(lb.stride.y as int, la.stride.x as int, l, l);
        lemma_mul_bound(lb.stride.x as int, la.stride.y as int, l, l);
    }
    let denom: i64 = lb.stride.y * la.stride.x - lb.stride.x * la.stride.y;
    if denom == 0 {
        None
    } else {
        let ox: i64 = lb.source.x - la.source.x;
        let oy: i64 = lb.source.y - la.source.y;
        proof {
            let l = COORD_LIMIT as int;
            lemma_mul_bound(lb.stride.y as int, ox as int, l, 2 * l);
            lemma_mul_bound(lb.stride.x as int, oy as int, l, 2 * l);
            lemma_mul_bound(la.stride.y as int, ox as int, l, 2 * l);
            lemma_mul_bound(la.stride.x as int, oy as int, l, 2 * l);
        }
        let nl: i64 = lb.stride.y * ox - lb.stride.x * oy;
        let nm: i64 = la.stride.y * ox - la.stride.x * oy;
        proof {
            let m = 4 * COORD_LIMIT * COORD_LIMIT * PARAM_ONE;
            lemma_mul_bound(nl as int, PARAM_ONE as int, 4 * COORD_LIMIT * COORD_LIMIT, PARAM_ONE as int);
            lemma_mul_bound(nm as int, PARAM_ONE as int, 4 * COORD_LIMIT * COORD_LIMIT, PARAM_ONE as int);
            assert(abs(nl * PARAM_ONE) <= m * abs(denom as int)) by (nonlinear_arith)
                requires
                    abs(nl * PARAM_ONE) <= m,
                    abs(denom as int) >= 1,
                    m >= 0,
            ;
            assert(abs(nm * PARAM_ONE) <= m * abs(denom as int)) by (nonlinear_arith)
                requires
                    abs(nm * PARAM_ONE) <= m,
                    abs(denom as int) >= 1,
                    m >= 0,
            ;
            lemma_trunc_div_bound(nl * PARAM_ONE, denom as int, m);
            lemma_trunc_div_bound(nm * PARAM_ONE, denom as int, m);
        }
        let lambda: i64 = div_toward_zero((nl as i128) * (PARAM_ONE as i128), denom as i128) as i64;
        let mu: i64 = div_toward_zero((nm as i128) * (PARAM_ONE as i128), denom as i128) as i64;
        if a.parameter_on(lambda) && b.parameter_on(mu) {
            let p = la.at(lambda);
            Some((lambda, mu, p))
        } else {
            None
        }
    }
}

/// Solving from either side gives the same answer: two segments that are
/// not parallel cross for both orders or for neither, each order reports
/// the other's parameters swapped, and the two reported points differ, on
/// each coordinate, by less than two units plus both strides over
/// `PARAM_ONE` (the rounding of the parameters and of the points).
pub proof fn lemma_intersect_symmetric(a: Segment, b: Segment)
    requires
        det(a.0, b.0) != 0,
    ensures
        det(b.0, a.0) == -det(a.0, b.0),
        lambda_of(b.0, a.0) == mu_of(a.0, b.0),
        mu_of(b.0, a.0) == lambda_of(a.0, b.0),
        (a.spec_on(lambda_of(a.0, b.0)) && b.spec_on(mu_of(a.0, b.0)))
            <==> (b.spec_on(lambda_of(b.0, a.0)) && a.spec_on(mu_of(b.0, a.0))),
        abs(at_coord(a.0.source.x as int, a.0.stride.x as int, lambda_of(a.0, b.0)) - at_coord(
            b.0.source.x as int,
            b.0.stride.x as int,
            lambda_of(b.0, a.0),
        )) * PARAM_ONE < 2 * PARAM_ONE + abs(a.0.stride.x as int) + abs(b.0.stride.x as int),
        abs(at_coord(a.0.source.y as int, a.0.stride.y as int, lambda_of(a.0, b.0)) - at_coord(
            b.0.source.y as int,
            b.0.stride.y as int,
            lambda_of(b.0, a.0),
        )) * PARAM_ONE < 2 * PARAM_ONE + abs(a.0.stride.y as int) + abs(b.0.stride.y as int),
{
    let la = a.0;
    let lb = b.0;
    let ox = lb.source.x - la.source.x;
    let oy = lb.source.y - la.source.y;
    let nl = (lb.stride.y * ox - lb.stride.x * oy) * PARAM_ONE;
    let nm = (la.stride.y * ox - la.stride.x * oy) * PARAM_ONE;
    assert((la.stride.y * (-ox) - la.stride.x * (-oy)) * PARAM_ONE == -nm) by (nonlinear_arith)
        requires
            nm == (la.stride.y * ox - la.stride.x * oy) * PARAM_ONE,
    ;
    assert((lb.stride.y * (-ox) - lb.stride.x * (-oy)) * PARAM_ONE == -nl) by (nonlinear_arith)
        requires
            nl == (lb.stride.y * ox - lb.stride.x * oy) * PARAM_ONE,
    ;
    lemma_trunc_div_neg_both(nl, det(la, lb));
    lemma_trunc_div_neg_both(nm, det(la, lb));
    let d = det(la, lb);
    let (ux, uy, vx, vy) = (la.stride.x as int, la.stride.y as int, lb.stride.x as int, lb.stride.y as int);
    let rl = vy * ox - vx * oy;
    let rm = uy * ox - ux * oy;
    assert(d * ox == rl * ux - rm * vx) by (nonlinear_arith)
        requires
            d == vy * ux - vx * uy,
            rl == vy * ox - vx * oy,
            rm == uy * ox - ux * oy,
    ;
    assert(d * oy == rl * uy - rm * vy) by (nonlinear_arith)
        requires
            d == vy * ux - vx * uy,
            rl == vy * ox - vx * oy,
            rm == uy * ox - ux * oy,
    ;
    assert(d * ox == d * lb.source.x - d * la.source.x && d * oy == d * lb.source.y - d * la.source.y)
        by (nonlinear_arith)
        requires
            ox == lb.source.x - la.source.x,
            oy == lb.source.y - la.source.y,
    ;
    lemma_crossing_coord(la.source.x as int, ux, lb.source.x as int, vx, rl, rm, d);
    lemma_crossing_coord(la.source.y as int, uy, lb.source.y as int, vy, rl, rm, d);
}

/// Truncating division misses by less than one divisor.
proof fn lemma_trunc_div_error(a: int, b: int)
    requires
        b != 0,
    ensures
        abs(trunc_div(a, b) * b - a) < abs(b),
{
    let (ua, ub) = (abs(a), abs(b));
    lemma_floor_div(ua, ub);
    let q = ua / ub;
    assert(abs(trunc_div(a, b) * b - a) == abs(q * ub - ua)) by (nonlinear_arith)
        requires
            ua == abs(a),
            ub == abs(b),
            q >= 0,
            trunc_div(a, b) == (if (a < 0) != (b < 0) { -q } else { q }),
    ;
    assert((q + 1) * ub == q * ub + ub) by (nonlinear_arith);
}

/// The crossing point on one coordinate, reached from each of two lines
/// with truncated parameters, is off from the exact crossing by less than
/// one unit plus the stride over `PARAM_ONE`; so the two reported points
/// differ by less than two units plus both strides over `PARAM_ONE`.
proof fn lemma_crossing_coord(sa: int, u: int, sb: int, w: int, nl: int, nm: int, d: int)
    requires
        d != 0,
        d * sa + nl * u == d * sb + nm * w,
    ensures
        abs(at_coord(sa, u, trunc_div(nl * PARAM_ONE, d)) - at_coord(sb, w, trunc_div(nm * PARAM_ONE, d)))
            * PARAM_ONE < 2 * PARAM_ONE + abs(u) + abs(w),
{
    let k = PARAM_ONE as int;
    let la = trunc_div(nl * k, d);
    let lb = trunc_div(nm * k, d);
    lemma_trunc_div_error(nl * k, d);
    lemma_trunc_div_error(nm * k, d);
    lemma_trunc_div_error(la * u, k);
    lemma_trunc_div_error(lb * w, k);
    let ta = trunc_div(la * u, k);
    let tb = trunc_div(lb * w, k);
    let ea = la * d - nl * k;
    let eb = lb * d - nm * k;
    let fa = ta * k - la * u;
    let fb = tb * k - lb * w;
    // (pa - pb) k d = fa d + ea u - fb d - eb w, by the crossing identity.
    assert(nl * u - nm * w == d * (sb - sa)) by (nonlinear_arith)
        requires
            d * sa + nl * u == d * sb + nm * w,
    ;
    let (x1, x2, x3, x4) = (fa * d, ea * u, fb * d, eb * w);
    assert(x1 == ta * k * d - la * u * d) by (nonlinear_arith)
        requires
            fa == ta * k - la * u,
            x1 == fa * d,
    ;
    assert(x2 == la * u * d - k * (nl * u)) by (nonlinear_arith)
        requires
            ea == la * d - nl * k,
            x2 == ea * u,
    ;
    assert(x3 == tb * k * d - lb * w * d) by (nonlinear_arith)
        requires
            fb == tb * k - lb * w,
            x3 == fb * d,
    ;
    assert(x4 == lb * w * d - k * (nm * w)) by (nonlinear_arith)
        requires
            eb == lb * d - nm * k,
            x4 == eb * w,
    ;
    let diff = ta - tb + sa - sb;
    assert(x1 + x2 - x3 - x4 == ta * k * d - tb * k * d - k * (nl * u - nm * w)) by (nonlinear_arith)
        requires
            x1 == ta * k * d - la * u * d,
            x2 == la * u * d - k * (nl * u),
            x3 == tb * k * d - lb * w * d,
            x4 == lb * w * d - k * (nm * w),
    ;
    assert(diff * k * d == ta * k * d - tb * k * d - k * (d * (sb - sa))) by (nonlinear_arith)
        requires
            diff == ta - tb + sa - sb,
    ;
    assert(diff * k * d == x1 + x2 - x3 - x4);
    assert(abs(x1) < k * abs(d)) by (nonlinear_arith)
        requires
            abs(fa) < k,
            x1 == fa * d,
            d != 0,
    ;
    assert(abs(x3) < k * abs(d)) by (nonlinear_arith)
        requires
            abs(fb) < k,
            x3 == fb * d,
            d != 0,
    ;
    assert(abs(x2) <= abs(d) * abs(u)) by (nonlinear_arith)
        requires
            abs(ea) < abs(d),
            x2 == ea * u,
    ;
    assert(abs(x4) <= abs(d) * abs(w)) by (nonlinear_arith)
        requires
            abs(eb) < abs(d),
            x4 == eb * w,
    ;
    let c = 2 * k + abs(u) + abs(w);
    assert(c * abs(d) == 2 * (k * abs(d)) + abs(d) * abs(u) + abs(d) * abs(w)) by (nonlinear_arith)
        requires
            c == 2 * k + abs(u) + abs(w),
    ;
    assert(abs(diff * k * d) < c * abs(d));
    assert(abs(diff) * k < c) by (nonlinear_arith)
        requires
            abs(diff * k * d) < c * abs(d),
            d != 0,
            k > 0,
    ;
}

proof fn lemma_trunc_div_neg_both(a: int, b: int)
    requires
        b != 0,
    ensures
        trunc_div(-a, -b) == trunc_div(a, b),
{
}

impl Linear for Line {
    open spec fn spec_line(&self) -> Line {
        *self
    }

    open spec fn spec_on(&self, t: int) -> bool {
        true
    }

    fn whole_line(&self) -> (r: Line) {
        *self
    }

    fn parameter_on(&self, t: i64) -> (r: bool) {
        true
    }
}

/// The half of a line from its source on: parameters at least 0.
#[derive(Clone, Copy, Debug, PartialEq, Eq, Structural)]
pub struct Ray(pub Line);

impl Ray {
    pub fn new(source: P2, stride: V2) -> (r: Ray)
        ensures
            r.0.source == source,
            r.0.stride == stride,
    {
        Ray(Line::new(source, stride))
    }
}

impl Linear for Ray {
    open spec fn spec_line(&self) -> Line {
        self.0
    }

    open spec fn spec_on(&self, t: int) -> bool {
        t >= 0
    }

    fn whole_line(&self) -> (r: Line) {
        self.0
    }

    fn parameter_on(&self, t: i64) -> (r: bool) {
        t >= 0
    }
}

/// The part of a line from its source to source plus stride: parameters
/// from 0 to `PARAM_ONE`.
#[derive(Clone, Copy, Debug, PartialEq, Eq, Structural)]
pub struct Segment(pub Line);

impl Segment {
    pub fn new(source: P2, stride: V2) -> (r: Segment)
        ensures
            r.0.source == source,
            r.0.stride == stride,
    {
        Segment(Line::new(source, stride))
    }

    /// The segment from `a` to `b`.
    pub fn new_from_points(a: P2, b: P2) -> (r: Segment)
        requires
            v2_in_limit(a),
            v2_in_limit(b),
        ensures
            r.0.source == a,
            r.0.stride.x == b.x - a.x,
            r.0.stride.y == b.y - a.y,
    {
        Self::new(a, V2 { x: b.x - a.x, y: b.y - a.y })
    }

    pub fn source(&self) -> (r: P2)
        ensures
            r == self.0.source,
    {
        self.0.source
    }

    pub fn destination(&self) -> (r: P2)
        requires
            line_in_limit(self.0),
        ensures
            r.x == self.0.source.x + self.0.stride.x,
            r.y == self.0.source.y + self.0.stride.y,
    {
        V2 { x: self.0.source.x + self.0.stride.x, y: self.0.source.y + self.0.stride.y }
    }

    /// The same points, walked from the destination back to the source.
    pub fn reverse(&self) -> (r: Segment)
        requires
            line_in_limit(self.0),
        ensures
            r.0.source.x == self.0.source.x + self.0.stride.x,
            r.0.source.y == self.0.source.y + self.0.stride.y,
            r.0.stride.x == -self.0.stride.x,
            r.0.stride.y == -self.0.stride.y,
    {
        Segment::new(self.destination(), V2 { x: -self.0.stride.x, y: -self.0.stride.y })
    }
}

impl Linear for Segment {
    open spec fn spec_line(&self) -> Line {
        self.0
    }

    open spec fn spec_on(&self, t: int) -> bool {
        0 <= t <= PARAM_ONE
    }

    fn whole_line(&self) -> (r: Line) {
        self.0
    }

    fn parameter_on(&self, t: i64) -> (r: bool) {
        t >= 0 && t <= PARAM_ONE
    }
}

} // verus!
