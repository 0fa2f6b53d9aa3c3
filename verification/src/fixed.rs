//! Fixed-point arithmetic.
//!
//! Scores, weights, importances and decay rates are counted in billionths:
//! the value `1.0` is [`ONE`]. Results that leave the range of an `i64` stay
//! at its nearest end, and quotients are rounded toward zero.

use vstd::prelude::*;

verus! {

/// The value `1.0`, in billionths.
pub const ONE: i64 = 1_000_000_000;

/// `x`, or the end of the `i64` range that is nearest to it.
pub open spec fn saturate(x: int) -> i64 {
    if x > i64::MAX {
        i64::MAX
    } else if x < i64::MIN {
        i64::MIN
    } else {
        x as i64
    }
}

/// The quotient of `n` and a positive `d`, rounded toward zero.
pub open spec fn quotient(n: int, d: int) -> int {
    if n >= 0 {
        n / d
    } else {
        -((-n) / d)
    }
}

/// `x` brought into the range `low..=high`.
pub open spec fn clamped(x: int, low: int, high: int) -> int {
    if x < low {
        low
    } else if x > high {
        high
    } else {
        x
    }
}

/// The fixed-point product of two values in billionths.
pub open spec fn product(a: int, b: int) -> i64 {
    saturate(quotient(a * b, ONE as int))
}

/// Brings a wide intermediate result back into an `i64`.
pub fn to_i64(x: i128) -> (r: i64)
    ensures
        r == saturate(x as int),
{
    if x > i64::MAX as i128 {
        i64::MAX
    } else if x < i64::MIN as i128 {
        i64::MIN
    } else {
        x as i64
    }
}

/// Divides, rounding toward zero.
pub fn divide(n: i128, d: i128) -> (r: i128)
    requires
        n > i128::MIN,
        d > 0,
    ensures
        r == quotient(n as int, d as int),
{
    if n >= 0 {
        n / d
    } else {
        let m: i128 = -n;
        proof {
            vstd::arithmetic::div_mod::lemma_div_pos_is_pos(m as int, d as int);
            vstd::arithmetic::div_mod::lemma_div_nonincreasing(m as int, d as int);
        }
        -(m / d)
    }
}

/// Multiplies two values in billionths.
pub fn multiply(a: i64, b: i64) -> (r: i64)
    ensures
        r == product(a as int, b as int),
{
    assert(-0x4000_0000_0000_0000_0000_0000_0000_0000 <= a * b
        <= 0x4000_0000_0000_0000_0000_0000_0000_0000) by (nonlinear_arith)
        requires
            i64::MIN <= a <= i64::MAX,
            i64::MIN <= b <= i64::MAX,
    ;
    to_i64(divide(a as i128 * b as i128, ONE as i128))
}

/// Brings a value into a range.
pub fn clamp(x: i64, low: i64, high: i64) -> (r: i64)
    ensures
        r == clamped(x as int, low as int, high as int),
{
    if x < low {
        low
    } else if x > high {
        high
    } else {
        x
    }
}

/// A larger dividend gives no smaller quotient.
pub proof fn lemma_quotient_monotone(m: int, n: int, d: int)
    requires
        m <= n,
        d > 0,
    ensures
        quotient(m, d) <= quotient(n, d),
{
    if m >= 0 {
        vstd::arithmetic::div_mod::lemma_div_is_ordered(m, n, d);
    } else if n < 0 {
        vstd::arithmetic::div_mod::lemma_div_is_ordered(-n, -m, d);
    } else {
        vstd::arithmetic::div_mod::lemma_div_pos_is_pos(-m, d);
        vstd::arithmetic::div_mod::lemma_div_pos_is_pos(n, d);
    }
}

/// Multiplying by a value that is not negative keeps the order.
pub proof fn lemma_product_monotone(a: int, b: int, c: int)
    requires
        a <= b,
        c >= 0,
    ensures
        product(a, c) <= product(b, c),
{
    assert(a * c <= b * c) by (nonlinear_arith)
        requires
            a <= b,
            c >= 0,
    ;
    lemma_quotient_monotone(a * c, b * c, ONE as int);
}

/// Multiplication does not depend on the order of the factors.
pub proof fn lemma_product_commutes(a: int, b: int)
    ensures
        product(a, b) == product(b, a),
{
    assert(a * b == b * a) by (nonlinear_arith);
}

/// Multiplying a value that is not negative by a part of one does not raise it.
pub proof fn lemma_product_shrinks(a: int, b: int)
    requires
        0 <= a <= i64::MAX,
        0 <= b <= ONE,
    ensures
        0 <= product(a, b) <= a,
{
    assert(0 <= a * b <= a * ONE) by (nonlinear_arith)
        requires
            0 <= a,
            0 <= b <= ONE,
    ;
    lemma_quotient_monotone(0, a * b, ONE as int);
    lemma_quotient_monotone(a * b, a * ONE, ONE as int);
    assert(a * ONE / (ONE as int) == a);
}

/// A product of values in billionths is the billionth part of their product, rounded
/// toward zero: one is neutral, and what is rounded off is less than a billionth.
pub proof fn law_product(a: int, b: int)
    requires
        0 <= a <= 2_000_000_000,
        0 <= b <= 2_000_000_000,
    ensures
        product(a, 1_000_000_000) == a,
        product(a, b) * 1_000_000_000 <= a * b < (product(a, b) + 1) * 1_000_000_000,
        product(-a, b) == -product(a, b),
{
    let p = a * b;
    assert(0 <= p <= 4_000_000_000_000_000_000) by (nonlinear_arith)
        requires
            p == a * b,
            0 <= a <= 2_000_000_000,
            0 <= b <= 2_000_000_000,
    ;
    assert((-a) * b == -p) by (nonlinear_arith)
        requires
            p == a * b,
    ;
}

/// A quotient is rounded toward zero: what is left over is less than the divisor, and a
/// negative number has the opposite quotient. A value is brought into a range by the
/// nearest value of the range.
pub proof fn law_quotient_and_range(n: int, d: int, x: int, low: int, high: int)
    requires
        n >= 0,
        d > 0,
        low <= high,
    ensures
        quotient(n, d) * d <= n < (quotient(n, d) + 1) * d,
        quotient(-n, d) == -quotient(n, d),
        low <= x <= high ==> clamped(x, low, high) == x,
        x < low ==> clamped(x, low, high) == low,
        x > high ==> clamped(x, low, high) == high,
        saturate(x) <= x || x < i64::MIN,
        i64::MIN <= x <= i64::MAX ==> saturate(x) == x,
        x > i64::MAX ==> saturate(x) == i64::MAX,
        x < i64::MIN ==> saturate(x) == i64::MIN,
{
    let q = n / d;
    vstd::arithmetic::div_mod::lemma_fundamental_div_mod(n, d);
    vstd::arithmetic::div_mod::lemma_mod_bound(n, d);
    assert(d * q == q * d && (q + 1) * d == q * d + d) by (nonlinear_arith);
    assert(0int / d == 0) by (nonlinear_arith)
        requires
            d > 0,
    ;
}

} // verus!
