//! Integer helpers shared by the geometry: division that truncates toward
//! zero, and magnitude bounds for products.

use vstd::prelude::*;
use vstd::arithmetic::div_mod::lemma_div_is_ordered;

verus! {

/// Absolute value over the integers.
pub open spec fn abs(a: int) -> int {
    if a < 0 { -a } else { a }
}

/// Division rounded toward zero, as Rust's `/` rounds on machine integers.
pub open spec fn trunc_div(a: int, b: int) -> int {
    let q = abs(a) / abs(b);
    if (a < 0) != (b < 0) { -q } else { q }
}

/// A product of two bounded factors is bounded by the product of the bounds.
pub proof fn lemma_mul_bound(a: int, b: int, la: int, lb: int)
    requires
        abs(a) <= la,
        abs(b) <= lb,
    ensures
        abs(a * b) <= la * lb,
{
    assert(abs(a * b) == abs(a) * abs(b)) by (nonlinear_arith);
    assert(abs(a) * abs(b) <= la * lb) by (nonlinear_arith)
        requires
            0 <= abs(a) <= la,
            0 <= abs(b) <= lb,
    ;
}

/// Truncating division by a divisor of magnitude at least one never grows
/// the magnitude, and a bound that is a multiple of the divisor divides
/// through.
pub proof fn lemma_trunc_div_bound(a: int, b: int, m: int)
    requires
        b != 0,
        abs(a) <= m * abs(b),
    ensures
        abs(trunc_div(a, b)) <= abs(a),
        abs(trunc_div(a, b)) <= m,
{
    let q = abs(a) / abs(b);
    assert(q <= abs(a)) by (nonlinear_arith)
        requires
            abs(a) >= 0,
            abs(b) >= 1,
            q == abs(a) / abs(b),
    ;
    lemma_div_is_ordered(abs(a), m * abs(b), abs(b));
    assert((m * abs(b)) / abs(b) == m) by (nonlinear_arith)
        requires
            abs(b) >= 1,
    ;
    assert(q >= 0) by (nonlinear_arith)
        requires
            abs(a) >= 0,
            abs(b) >= 1,
            q == abs(a) / abs(b),
    ;
}

/// Division of `a` by `b`, rounded toward zero.
pub fn div_toward_zero(a: i128, b: i128) -> (q: i128)
    requires
        b != 0,
        a > i128::MIN,
        b > i128::MIN,
    ensures
        q == trunc_div(a as int, b as int),
{
    let ua: i128 = if a < 0 { -a } else { a };
    let ub: i128 = if b < 0 { -b } else { b };
    let uq: i128 = ua / ub;
    proof {
        assert(uq >= 0) by (nonlinear_arith)
            requires
                ua >= 0,
                ub >= 1,
                uq == ua / ub,
        ;
        assert(uq <= ua) by (nonlinear_arith)
            requires
                ua >= 0,
                ub >= 1,
                uq == ua / ub,
        ;
    }
    if (a < 0) != (b < 0) {
        -uq
    } else {
        uq
    }
}

} // verus!
