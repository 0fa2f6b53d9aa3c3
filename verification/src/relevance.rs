//! Relevance scores, after the Ebbinghaus forgetting curve.
//!
//! The model combines exponential decay (a memory fades without rehearsal),
//! logarithmic strengthening (each retrieval adds less than the one before),
//! a floor that grows with importance (salient memories never fade fully) and
//! a decay rate that falls as importance rises.
//!
//! All values are in billionths, see [`crate::fixed`].

use vstd::prelude::*;

use crate::fixed::{clamp, divide, multiply, to_i64, ONE};

verus! {

/// The share of similarity in a query's score; the rest goes to relevance.
pub const SEMANTIC_WEIGHT: i64 = 700_000_000;

/// A fragment at or below this relevance is forgotten: it stays stored and no
/// query returns it.
pub const MIN_RELEVANCE_THRESHOLD: i64 = 50_000_000;

/// The boost that a neighbour gets when a fragment is accessed.
pub const ACTIVATION_SPREAD_FACTOR: i64 = 100_000_000;

/// The unit in which the logarithm and the exponential are summed up.
pub const SERIES: u128 = 1_000_000_000_000_000;

/// The number of terms that are summed up for a logarithm or an exponential.
pub const TERMS: u32 = 17;

/// The natural logarithm of two, in billionths, rounded down.
pub const LN_2: u128 = 693_147_180;

/// Seconds in a day.
pub const DAY_SECS: i128 = 86_400;

// ---- natural logarithm ----

/// `t + t/(3q) + t/(5q^2) + ...`: what is left of the sum from term `j` on.
pub open spec fn odd_series(t: nat, q: nat, j: nat, terms: nat) -> nat
    decreases terms,
{
    if terms == 0 {
        0
    } else {
        t / (2 * j + 1) + odd_series(t / q, q, j + 1, (terms - 1) as nat)
    }
}

/// `ln(k + 1) - ln(k)` in units of `1 / SERIES`: with `x = 1 / (2k + 1)` it is
/// `2 * (x + x^3 / 3 + x^5 / 5 + ...)`.
pub open spec fn log_step(k: nat) -> nat {
    odd_series(
        (2 * SERIES) as nat / (2 * k + 1),
        (2 * k + 1) * (2 * k + 1),
        0,
        TERMS as nat,
    )
}

/// `ln(1 + n)` in units of `1 / SERIES`.
pub open spec fn log_one_plus(n: nat) -> nat
    decreases n,
{
    if n == 0 {
        0
    } else {
        log_one_plus((n - 1) as nat) + log_step(n)
    }
}

/// `0.3 + 0.15 * ln(1 + n)`, before it is cut off at one.
pub open spec fn raw_strength(n: nat) -> nat {
    300_000_000 + 15 * log_one_plus(n) / 100_000_000
}

/// `min(1.0, 0.3 + 0.15 * ln(1 + n))`: how firmly `n` retrievals fixed a memory.
pub open spec fn strength(n: nat) -> int {
    if raw_strength(n) > ONE {
        ONE as int
    } else {
        raw_strength(n) as int
    }
}

/// Fewer units, divided by more, sum up to no more.
proof fn lemma_odd_series_ordered(t1: nat, q1: nat, t2: nat, q2: nat, j: nat, terms: nat)
    requires
        t1 <= t2,
        q1 >= q2 > 0,
    ensures
        odd_series(t1, q1, j, terms) <= odd_series(t2, q2, j, terms),
    decreases terms,
{
    if terms > 0 {
        vstd::arithmetic::div_mod::lemma_div_is_ordered(t1 as int, t2 as int, (2 * j + 1) as int);
        vstd::arithmetic::div_mod::lemma_div_is_ordered(t1 as int, t2 as int, q1 as int);
        vstd::arithmetic::div_mod::lemma_div_is_ordered_by_denominator(t2 as int, q2 as int, q1 as int);
        lemma_odd_series_ordered(t1 / q1, q1, t2 / q2, q2, j + 1, (terms - 1) as nat);
    }
}

/// Each term is at most the first one.
proof fn lemma_odd_series_bounded(t: nat, q: nat, j: nat, terms: nat)
    requires
        q > 0,
    ensures
        odd_series(t, q, j, terms) <= t * terms,
    decreases terms,
{
    if terms > 0 {
        vstd::arithmetic::div_mod::lemma_div_nonincreasing(t as int, (2 * j + 1) as int);
        vstd::arithmetic::div_mod::lemma_div_nonincreasing(t as int, q as int);
        lemma_odd_series_bounded(t / q, q, j + 1, (terms - 1) as nat);
        assert((t / q) * (terms - 1) <= t * (terms - 1)) by (nonlinear_arith)
            requires
                t / q <= t,
                terms >= 1,
        ;
        assert(t * terms == t + t * (terms - 1)) by (nonlinear_arith)
            requires
                terms >= 1,
        ;
    }
}

/// No retrieval weakens a memory.
pub proof fn law_strength_grows(m: nat, n: nat)
    requires
        m <= n,
    ensures
        strength(m) <= strength(n),
        log_one_plus(m) <= log_one_plus(n),
    decreases n,
{
    if m < n {
        law_strength_grows(m, (n - 1) as nat);
        vstd::arithmetic::div_mod::lemma_div_is_ordered(
            (15 * log_one_plus((n - 1) as nat)) as int,
            (15 * log_one_plus(n)) as int,
            100_000_000,
        );
    }
}

/// Each retrieval adds no more than the one before it.
pub proof fn law_diminishing_returns(n: nat)
    requires
        n >= 1,
    ensures
        log_one_plus(n + 1) - log_one_plus(n) <= log_one_plus(n) - log_one_plus((n - 1) as nat),
{
    let d1 = 2 * n + 1;
    let d2 = 2 * (n + 1) + 1;
    vstd::arithmetic::div_mod::lemma_div_is_ordered_by_denominator(
        (2 * SERIES) as int,
        d1 as int,
        d2 as int,
    );
    assert(d1 * d1 <= d2 * d2) by (nonlinear_arith)
        requires
            0 < d1 <= d2,
    ;
    assert(d1 * d1 > 0) by (nonlinear_arith)
        requires
            0 < d1,
    ;
    lemma_odd_series_ordered(
        (2 * SERIES) as nat / d2,
        d2 * d2,
        (2 * SERIES) as nat / d1,
        d1 * d1,
        0,
        TERMS as nat,
    );
}

/// Sums up `ln(k + 1) - ln(k)`.
fn compute_log_step(k: u32) -> (r: u128)
    ensures
        r == log_step(k as nat),
        r <= 2 * SERIES * TERMS,
{
    let d: u128 = 2 * (k as u128) + 1;
    assert(0 < d * d <= 0x3_0000_0000 * 0x3_0000_0000) by (nonlinear_arith)
        requires
            0 < d <= 0x3_0000_0000,
    ;
    let q: u128 = d * d;
    let mut t: u128 = 2 * SERIES / d;
    let mut j: u32 = 0;
    let mut sum: u128 = 0;
    let ghost whole = log_step(k as nat);
    proof {
        lemma_odd_series_bounded(t as nat, q as nat, 0, TERMS as nat);
        vstd::arithmetic::div_mod::lemma_div_nonincreasing((2 * SERIES) as int, d as int);
        assert(t * TERMS <= 2 * SERIES * TERMS) by (nonlinear_arith)
            requires
                t <= 2 * SERIES,
        ;
    }
    while j < TERMS
        invariant
            j <= TERMS,
            q > 0,
            whole <= 2 * SERIES * TERMS,
            whole == sum + odd_series(t as nat, q as nat, j as nat, (TERMS - j) as nat),
        decreases TERMS - j,
    {
        sum = sum + t / (2 * (j as u128) + 1);
        t = t / q;
        j = j + 1;
    }
    sum
}

/// Computes how firmly a number of retrievals fixed a memory.
pub fn compute_strength(access_count: u32) -> (r: i64)
    ensures
        r == strength(access_count as nat),
        300_000_000 <= r <= ONE,
{
    let mut log: u128 = 0;
    let mut k: u32 = 0;
    while k < access_count
        invariant
            k <= access_count,
            log == log_one_plus(k as nat),
            log <= 1_000 * SERIES,
        decreases access_count - k,
    {
        if log >= 5 * SERIES {
            proof {
                law_strength_grows(k as nat, access_count as nat);
            }
            return ONE;
        }
        k = k + 1;
        log = log + compute_log_step(k);
    }
    let raw: u128 = 300_000_000 + 15 * log / 100_000_000;
    if raw > ONE as u128 {
        ONE
    } else {
        raw as i64
    }
}

// ---- exponential ----

/// `t + t*r/(i+1) + t*r^2/((i+1)(i+2)) + ...`, with `r` in billionths.
pub open spec fn power_series(t: nat, r: nat, i: nat, terms: nat) -> nat
    decreases terms,
{
    if terms == 0 {
        0
    } else {
        t + power_series(t * r / ((i + 1) * ONE as nat), r, i + 1, (terms - 1) as nat)
    }
}

/// `exp(r)` in units of `1 / SERIES`, for `r` in billionths below `LN_2`.
pub open spec fn exp_part(r: nat) -> nat {
    power_series(SERIES as nat, r, 0, TERMS as nat)
}

/// `v / 2^n`, rounded down.
pub open spec fn halved(v: nat, n: nat) -> nat
    decreases n,
{
    if n == 0 {
        v
    } else {
        halved(v / 2, (n - 1) as nat)
    }
}

/// `v * 2^n`, or the largest `i64` where that is less.
pub open spec fn doubled(v: nat, n: nat) -> nat
    decreases n,
{
    if v >= i64::MAX {
        i64::MAX as nat
    } else if n == 0 {
        v
    } else {
        doubled(2 * v, (n - 1) as nat)
    }
}

/// `exp(-x)` for `x` in billionths: with `x = n * ln 2 + r` it is
/// `2^-n / exp(r)`.
pub open spec fn decay(x: int) -> int {
    if x >= 0 {
        halved(
            (ONE * SERIES) as nat / exp_part((x % LN_2 as int) as nat),
            (x / LN_2 as int) as nat,
        ) as int
    } else {
        doubled(
            ONE as nat * exp_part(((-x) % LN_2 as int) as nat) / SERIES as nat,
            ((-x) / LN_2 as int) as nat,
        ) as int
    }
}

proof fn lemma_power_series_ordered(t1: nat, r1: nat, t2: nat, r2: nat, i: nat, terms: nat)
    requires
        t1 <= t2,
        r1 <= r2,
    ensures
        power_series(t1, r1, i, terms) <= power_series(t2, r2, i, terms),
    decreases terms,
{
    if terms > 0 {
        assert(t1 * r1 <= t2 * r2) by (nonlinear_arith)
            requires
                t1 <= t2,
                r1 <= r2,
        ;
        let d = ((i + 1) * ONE as nat) as int;
        assert(d > 0) by (nonlinear_arith)
            requires
                d == (i + 1) * ONE,
        ;
        vstd::arithmetic::div_mod::lemma_div_is_ordered((t1 * r1) as int, (t2 * r2) as int, d);
        lemma_power_series_ordered(
            t1 * r1 / ((i + 1) * ONE as nat),
            r1,
            t2 * r2 / ((i + 1) * ONE as nat),
            r2,
            i + 1,
            (terms - 1) as nat,
        );
    }
}

/// Below `ln 2` the exponential lies between one and two.
proof fn lemma_exp_part_range(r: nat)
    requires
        r < LN_2,
    ensures
        SERIES <= exp_part(r) <= 2 * SERIES,
{
    assert(exp_part(r) == SERIES + power_series(SERIES as nat * r / (1 * ONE as nat), r, 1, 16));
    lemma_power_series_ordered(SERIES as nat, r, SERIES as nat, LN_2 as nat, 0, TERMS as nat);
    lemma_exp_of_ln_2();
}

/// The term that follows `t` in the sum for `exp(LN_2)` is `u`.
proof fn lemma_term(t: nat, i: nat, n: nat, u: nat)
    requires
        n >= 1,
        0 <= t * 693_147_180 - u * ((i + 1) * 1_000_000_000) < (i + 1) * 1_000_000_000,
    ensures
        power_series(t, LN_2 as nat, i, n) == t + power_series(u, LN_2 as nat, i + 1, (n - 1) as nat),
{
    let d = (i + 1) * 1_000_000_000;
    let rest = t * 693_147_180 - u * d;
    vstd::arithmetic::div_mod::lemma_fundamental_div_mod_converse(
        (t * 693_147_180) as int,
        d as int,
        u as int,
        rest as int,
    );
}

/// The terms of `exp(LN_2)`, one by one: they do not reach two.
proof fn lemma_exp_of_ln_2()
    ensures
        power_series(SERIES as nat, LN_2 as nat, 0, TERMS as nat) <= 2 * SERIES,
{
    lemma_term(1_000_000_000_000_000, 0, 17, 693_147_180_000_000);
    lemma_term(693_147_180_000_000, 1, 16, 240_226_506_570_976);
    lemma_term(240_226_506_570_976, 2, 15, 55_504_108_530_307);
    lemma_term(55_504_108_530_307, 3, 14, 9_618_129_076_549);
    lemma_term(9_618_129_076_549, 4, 13, 1_333_355_809_257);
    lemma_term(1_333_355_809_257, 5, 12, 154_035_303_187);
    lemma_term(154_035_303_187, 6, 11, 15_252_733_717);
    lemma_term(15_252_733_717, 7, 10, 1_321_548_670);
    lemma_term(1_321_548_670, 8, 9, 101_780_859);
    lemma_term(101_780_859, 9, 8, 7_054_911);
    lemma_term(7_054_911, 10, 7, 444_553);
    lemma_term(444_553, 11, 6, 25_678);
    lemma_term(25_678, 12, 5, 1_369);
    lemma_term(1_369, 13, 4, 67);
    lemma_term(67, 14, 3, 3);
    lemma_term(3, 15, 2, 0);
    lemma_term(0, 16, 1, 0);
}

proof fn lemma_halved_ordered(v1: nat, n1: nat, v2: nat, n2: nat)
    requires
        v1 <= v2,
        n1 >= n2,
    ensures
        halved(v1, n1) <= halved(v2, n2),
    decreases n1,
{
    if n1 > 0 {
        if n2 > 0 {
            lemma_halved_ordered(v1 / 2, (n1 - 1) as nat, v2 / 2, (n2 - 1) as nat);
        } else {
            lemma_halved_ordered(v1 / 2, (n1 - 1) as nat, v2, 0);
        }
    }
}

/// The longer a memory has gone without rehearsal, the less is left of it; a
/// fresh one is whole.
pub proof fn law_decay_ordered(x: int, y: int)
    requires
        0 <= x <= y,
    ensures
        0 <= decay(y) <= decay(x) <= ONE,
        decay(0) == ONE,
{
    let l = LN_2 as int;
    let (nx, rx) = ((x / l) as nat, (x % l) as nat);
    let (ny, ry) = ((y / l) as nat, (y % l) as nat);
    let whole = (ONE * SERIES) as nat;
    lemma_exp_part_range(rx);
    lemma_exp_part_range(ry);
    let vx = whole / exp_part(rx);
    let vy = whole / exp_part(ry);
    vstd::arithmetic::div_mod::lemma_div_is_ordered_by_denominator(
        whole as int,
        SERIES as int,
        exp_part(rx) as int,
    );
    vstd::arithmetic::div_mod::lemma_div_is_ordered_by_denominator(
        whole as int,
        SERIES as int,
        exp_part(ry) as int,
    );
    vstd::arithmetic::div_mod::lemma_div_is_ordered_by_denominator(
        whole as int,
        exp_part(rx) as int,
        (2 * SERIES) as int,
    );
    assert(vx <= ONE && vy <= ONE && vx >= ONE / 2);
    vstd::arithmetic::div_mod::lemma_div_is_ordered(x, y, l);
    lemma_halved_ordered(vx, nx, ONE as nat, 0);
    if nx == ny {
        assert(rx <= ry);
        lemma_power_series_ordered(SERIES as nat, rx, SERIES as nat, ry, 0, TERMS as nat);
        vstd::arithmetic::div_mod::lemma_div_is_ordered_by_denominator(
            whole as int,
            exp_part(rx) as int,
            exp_part(ry) as int,
        );
        lemma_halved_ordered(vy, ny, vx, nx);
    } else {
        lemma_halved_ordered(vy / 2, (ny - 1) as nat, vx, nx);
    }
    lemma_zero_series(SERIES as nat, 0, TERMS as nat);
}

proof fn lemma_zero_series(t: nat, i: nat, terms: nat)
    ensures
        power_series(t, 0, i, terms) == if terms == 0 {
            0
        } else {
            t
        },
    decreases terms,
{
    if terms > 0 {
        assert(t * 0 == 0);
        assert(0nat / ((i + 1) * ONE as nat) == 0) by {
            vstd::arithmetic::div_mod::lemma_div_basics(((i + 1) * ONE) as int);
        }
        lemma_zero_series(0, i + 1, (terms - 1) as nat);
    }
}

/// Sums up `exp(r)`.
fn compute_exp_part(r: u128) -> (e: u128)
    requires
        r < LN_2,
    ensures
        e == exp_part(r as nat),
        SERIES <= e <= 2 * SERIES,
{
    let mut t: u128 = SERIES;
    let mut i: u32 = 0;
    let mut sum: u128 = 0;
    let ghost whole = exp_part(r as nat);
    proof {
        lemma_exp_part_range(r as nat);
    }
    while i < TERMS
        invariant
            i <= TERMS,
            r < LN_2,
            t <= SERIES,
            whole <= 2 * SERIES,
            whole == sum + power_series(t as nat, r as nat, i as nat, (TERMS - i) as nat),
        decreases TERMS - i,
    {
        sum = sum + t;
        assert(0 <= t * r <= t * LN_2 <= SERIES * LN_2) by (nonlinear_arith)
            requires
                0 <= t <= SERIES,
                0 <= r <= LN_2,
        ;
        let d: u128 = (i as u128 + 1) * (ONE as u128);
        proof {
            vstd::arithmetic::div_mod::lemma_div_is_ordered(
                (t * r) as int,
                (t * LN_2) as int,
                d as int,
            );
            vstd::arithmetic::div_mod::lemma_div_is_ordered_by_denominator(
                (t * LN_2) as int,
                ONE as int,
                d as int,
            );
        }
        t = t * r / d;
        i = i + 1;
    }
    sum
}

proof fn lemma_halved_zero(n: nat)
    ensures
        halved(0, n) == 0,
    decreases n,
{
    if n > 0 {
        lemma_halved_zero((n - 1) as nat);
    }
}

/// Computes `exp(-x)` for `x` in billionths.
pub fn compute_decay(x: i128) -> (r: i64)
    requires
        x > i128::MIN,
    ensures
        r == decay(x as int),
        r >= 0,
        x >= 0 ==> r <= ONE,
{
    if x >= 0 {
        let y: u128 = x as u128;
        let e: u128 = compute_exp_part(y % LN_2);
        let mut v: u128 = (ONE as u128) * SERIES / e;
        proof {
            vstd::arithmetic::div_mod::lemma_div_is_ordered_by_denominator(
                (ONE * SERIES) as int,
                SERIES as int,
                e as int,
            );
            law_decay_ordered(0, x as int);
        }
        let mut n: u128 = y / LN_2;
        while n > 0 && v > 0
            invariant
                v <= ONE,
                decay(x as int) == halved(v as nat, n as nat),
            decreases n,
        {
            v = v / 2;
            n = n - 1;
        }
        proof {
            if v == 0 {
                lemma_halved_zero(n as nat);
            }
        }
        v as i64
    } else {
        let y: u128 = (-x) as u128;
        let e: u128 = compute_exp_part(y % LN_2);
        assert(ONE * e <= 2 * ONE * SERIES) by (nonlinear_arith)
            requires
                0 <= e <= 2 * SERIES,
        ;
        let mut v: u128 = (ONE as u128) * e / SERIES;
        let mut n: u128 = y / LN_2;
        while n > 0 && v < i64::MAX as u128
            invariant
                v <= 2 * i64::MAX,
                decay(x as int) == doubled(v as nat, n as nat),
            decreases n,
        {
            v = 2 * v;
            n = n - 1;
        }
        if v >= i64::MAX as u128 {
            i64::MAX
        } else {
            v as i64
        }
    }
}

// ---- relevance ----

/// `decay_rate * days`, where the days from `last_reinforced` to `now` count
/// as zero while they lie in the future.
pub open spec fn decay_exponent(decay_rate: int, last_reinforced: int, now: int) -> int {
    crate::fixed::quotient(
        decay_rate * if now > last_reinforced {
            now - last_reinforced
        } else {
            0
        },
        DAY_SECS as int,
    )
}

/// `importance * strength * exp(-decay_rate * days) + 0.3 * importance`, kept
/// between zero and one.
pub open spec fn relevance(
    importance: int,
    access_count: nat,
    decay_rate: int,
    last_reinforced: int,
    now: int,
) -> int {
    crate::fixed::clamped(
        crate::fixed::product(
            crate::fixed::product(importance, strength(access_count)) as int,
            decay(decay_exponent(decay_rate, last_reinforced, now)),
        ) + crate::fixed::quotient(3 * importance, 10),
        0,
        ONE as int,
    )
}

/// Computes the relevance score of a fragment.
pub fn compute_relevance(
    importance: i64,
    access_count: u32,
    decay_rate: i64,
    last_reinforced: i64,
    now: i64,
) -> (r: i64)
    ensures
        r == relevance(
            importance as int,
            access_count as nat,
            decay_rate as int,
            last_reinforced as int,
            now as int,
        ),
        0 <= r <= ONE,
{
    let secs: i128 = if now > last_reinforced {
        now as i128 - last_reinforced as i128
    } else {
        0
    };
    assert(-0x8000_0000_0000_0000_0000_0000_0000_0000 < decay_rate * secs
        <= 0x7fff_ffff_ffff_ffff_ffff_ffff_ffff_ffff) by (nonlinear_arith)
        requires
            i64::MIN <= decay_rate <= i64::MAX,
            0 <= secs <= 0xffff_ffff_ffff_ffff,
    ;
    let exponent: i128 = divide(decay_rate as i128 * secs, DAY_SECS);
    proof {
        crate::fixed::lemma_quotient_monotone(
            -0x7fff_ffff_ffff_ffff_ffff_ffff_ffff_ffff,
            decay_rate * secs,
            DAY_SECS as int,
        );
    }
    let left: i64 = compute_decay(exponent);
    let strong: i64 = multiply(importance, compute_strength(access_count));
    let floor: i128 = divide(3 * importance as i128, 10);
    let sum: i128 = multiply(strong, left) as i128 + floor;
    clamp(to_i64(sum), 0, ONE)
}

/// The decay rate per day for an importance, which is kept between zero and
/// one. It falls along straight lines from 0.07 for the lowest importance by way
/// of 0.064 for 0.1 and 0.035 for 0.5, a half-life of some twenty days, to 0.01
/// for the highest.
pub open spec fn decay_rate_of(importance: int) -> int {
    let i = crate::fixed::clamped(importance, 0, ONE as int);
    if i <= 100_000_000 {
        70_000_000 - 6 * i / 100
    } else if i <= 500_000_000 {
        64_000_000 - 29 * (i - 100_000_000) / 400
    } else {
        35_000_000 - (i - 500_000_000) / 20
    }
}

/// Computes the decay rate per day for an importance.
pub fn decay_rate_for_importance(importance: i64) -> (r: i64)
    ensures
        r == decay_rate_of(importance as int),
        10_000_000 <= r <= 70_000_000,
{
    let i: i64 = clamp(importance, 0, ONE);
    if i <= 100_000_000 {
        70_000_000 - 6 * i / 100
    } else if i <= 500_000_000 {
        64_000_000 - 29 * (i - 100_000_000) / 400
    } else {
        35_000_000 - (i - 500_000_000) / 20
    }
}

/// `SEMANTIC_WEIGHT * similarity + (1.0 - SEMANTIC_WEIGHT) * relevance`: the
/// score that queries rank by.
pub open spec fn blended(similarity: int, relevance_score: int) -> i64 {
    crate::fixed::saturate(
        crate::fixed::quotient(
            SEMANTIC_WEIGHT * similarity + (ONE - SEMANTIC_WEIGHT) * relevance_score,
            ONE as int,
        ),
    )
}

/// Blends a similarity with a relevance score.
pub fn blend(similarity: i64, relevance_score: i64) -> (r: i64)
    ensures
        r == blended(similarity as int, relevance_score as int),
{
    assert(-0x2000_0000_0000_0000_0000_0000 < SEMANTIC_WEIGHT * similarity
        < 0x2000_0000_0000_0000_0000_0000) by (nonlinear_arith)
        requires
            i64::MIN <= similarity <= i64::MAX,
    ;
    assert(-0x2000_0000_0000_0000_0000_0000 < (ONE - SEMANTIC_WEIGHT) * relevance_score
        < 0x2000_0000_0000_0000_0000_0000) by (nonlinear_arith)
        requires
            i64::MIN <= relevance_score <= i64::MAX,
    ;
    let similar: i128 = (SEMANTIC_WEIGHT as i128) * (similarity as i128);
    let relevant: i128 = (ONE as i128 - SEMANTIC_WEIGHT as i128) * (relevance_score as i128);
    to_i64(divide(similar + relevant, ONE as i128))
}

/// Retrieving a memory once more never lowers its relevance.
pub proof fn law_access_strengthens(
    importance: i64,
    m: nat,
    n: nat,
    decay_rate: int,
    last_reinforced: int,
    now: int,
)
    requires
        importance >= 0,
        m <= n,
    ensures
        relevance(importance as int, m, decay_rate, last_reinforced, now) <= relevance(
            importance as int,
            n,
            decay_rate,
            last_reinforced,
            now,
        ),
{
    let i = importance as int;
    law_strength_grows(m, n);
    crate::fixed::lemma_product_monotone(strength(m), strength(n), i);
    crate::fixed::lemma_product_commutes(strength(m), i);
    crate::fixed::lemma_product_commutes(strength(n), i);
    let x = decay_exponent(decay_rate, last_reinforced, now);
    crate::fixed::lemma_product_monotone(
        crate::fixed::product(i, strength(m)) as int,
        crate::fixed::product(i, strength(n)) as int,
        decay(x),
    );
}

/// Without rehearsal, and with a decay rate that is not negative, relevance
/// never rises as time passes.
pub proof fn law_time_fades(
    importance: i64,
    access_count: nat,
    decay_rate: int,
    last_reinforced: int,
    earlier: int,
    later: int,
)
    requires
        importance >= 0,
        decay_rate >= 0,
        earlier <= later,
    ensures
        relevance(importance as int, access_count, decay_rate, last_reinforced, later) <= relevance(
            importance as int,
            access_count,
            decay_rate,
            last_reinforced,
            earlier,
        ),
{
    let i = importance as int;
    let s1 = if earlier > last_reinforced {
        earlier - last_reinforced
    } else {
        0
    };
    let s2 = if later > last_reinforced {
        later - last_reinforced
    } else {
        0
    };
    assert(0 <= decay_rate * s1 <= decay_rate * s2) by (nonlinear_arith)
        requires
            decay_rate >= 0,
            0 <= s1 <= s2,
    ;
    crate::fixed::lemma_quotient_monotone(0, decay_rate * s1, DAY_SECS as int);
    crate::fixed::lemma_quotient_monotone(decay_rate * s1, decay_rate * s2, DAY_SECS as int);
    let x1 = decay_exponent(decay_rate, last_reinforced, earlier);
    let x2 = decay_exponent(decay_rate, last_reinforced, later);
    law_decay_ordered(x1, x2);
    law_strength_grows(0, access_count);
    let p = crate::fixed::product(i, strength(access_count)) as int;
    crate::fixed::lemma_product_shrinks(i, strength(access_count));
    crate::fixed::lemma_product_monotone(decay(x2), decay(x1), p);
    crate::fixed::lemma_product_commutes(decay(x2), p);
    crate::fixed::lemma_product_commutes(decay(x1), p);
}

/// However long ago it was, a memory keeps three tenths of its importance.
pub proof fn law_importance_floor(
    importance: i64,
    access_count: nat,
    decay_rate: int,
    last_reinforced: int,
    now: int,
)
    requires
        0 <= importance <= ONE,
    ensures
        relevance(importance as int, access_count, decay_rate, last_reinforced, now) >= 3 * importance
            / 10,
{
    let i = importance as int;
    law_strength_grows(0, access_count);
    crate::fixed::lemma_product_shrinks(i, strength(access_count));
    let p = crate::fixed::product(i, strength(access_count)) as int;
    let x = decay_exponent(decay_rate, last_reinforced, now);
    crate::fixed::lemma_product_monotone(0, p, decay(x));
}

/// The more important a memory is, the slower it fades.
pub proof fn law_important_fades_slower(a: int, b: int)
    requires
        a <= b,
    ensures
        decay_rate_of(b) <= decay_rate_of(a),
{
}

// ---- how the score of a query answers to its parts ----

proof fn lemma_blend_parts(s: int, r: int)
    ensures
        SEMANTIC_WEIGHT * s + (ONE - SEMANTIC_WEIGHT) * r == 700_000_000 * s + 300_000_000 * r,
{
    assert((ONE - SEMANTIC_WEIGHT) * r == 300_000_000 * r) by (nonlinear_arith)
        requires
            ONE - SEMANTIC_WEIGHT == 300_000_000,
    ;
}

/// A score falls neither as similarity rises nor as relevance rises.
pub proof fn law_blend_is_monotone(s1: i64, r1: i64, s2: i64, r2: i64)
    requires
        s1 <= s2,
        r1 <= r2,
    ensures
        blended(s1 as int, r1 as int) <= blended(s2 as int, r2 as int),
{
    lemma_blend_parts(s1 as int, r1 as int);
    lemma_blend_parts(s2 as int, r2 as int);
    let n1 = 700_000_000 * s1 + 300_000_000 * r1;
    let n2 = 700_000_000 * s2 + 300_000_000 * r2;
    crate::fixed::lemma_quotient_monotone(n1, n2, ONE as int);
}

/// What is as similar as it is relevant has just that for its score.
pub proof fn law_blend_of_equals(x: i64)
    ensures
        blended(x as int, x as int) == x,
{
    lemma_blend_parts(x as int, x as int);
    assert(x * ONE / (ONE as int) == x);
}

/// Seven tenths of a score are similarity and three tenths are relevance: ten
/// billionths more of the one add seven, and ten more of the other add three.
pub proof fn law_blend_shares(similarity: i64, relevance_score: i64)
    requires
        0 <= similarity <= i64::MAX - 10,
        0 <= relevance_score <= i64::MAX - 10,
    ensures
        blended(similarity + 10, relevance_score as int) == blended(
            similarity as int,
            relevance_score as int,
        ) + 7,
        blended(similarity as int, relevance_score + 10) == blended(
            similarity as int,
            relevance_score as int,
        ) + 3,
{
    lemma_blend_parts(similarity as int, relevance_score as int);
    lemma_blend_parts(similarity + 10, relevance_score as int);
    lemma_blend_parts(similarity as int, relevance_score + 10);
    let n = 700_000_000 * similarity + 300_000_000 * relevance_score;
    assert(n / (ONE as int) <= i64::MAX - 10);
    assert((n + 7 * ONE) / (ONE as int) == n / (ONE as int) + 7);
    assert((n + 3 * ONE) / (ONE as int) == n / (ONE as int) + 3);
}

/// Of two fragments that are equally similar to a query, the one that is more
/// relevant by some billionths scores more.
pub proof fn law_fresher_scores_more(similarity: i64, r1: i64, r2: i64)
    requires
        r1 + 7 <= r2 || (similarity >= 0 && r1 >= 0 && r1 + 4 <= r2),
    ensures
        blended(similarity as int, r1 as int) < blended(similarity as int, r2 as int),
{
    lemma_blend_parts(similarity as int, r1 as int);
    lemma_blend_parts(similarity as int, r2 as int);
    let n1 = 700_000_000 * similarity + 300_000_000 * r1;
    let n2 = 700_000_000 * similarity + 300_000_000 * r2;
    assert(n2 - n1 >= ONE);
    assert(n1 >= 0 ==> n1 / (ONE as int) < n2 / (ONE as int));
    assert(n2 < 0 ==> (-n2) / (ONE as int) < (-n1) / (ONE as int));
    assert(n1 < 0 <= n2 ==> (-n1) / (ONE as int) > 0 || n2 / (ONE as int) > 0);
    assert(i64::MIN <= crate::fixed::quotient(n1, ONE as int) <= i64::MAX);
    assert(i64::MIN <= crate::fixed::quotient(n2, ONE as int) <= i64::MAX);
}

/// Of two fragments that are equally relevant, the one that is more similar to a
/// query by some billionths scores more.
pub proof fn law_closer_scores_more(s1: i64, s2: i64, relevance_score: i64)
    requires
        s1 + 10 <= s2,
    ensures
        blended(s1 as int, relevance_score as int) < blended(s2 as int, relevance_score as int),
{
    lemma_blend_parts(s1 as int, relevance_score as int);
    lemma_blend_parts(s2 as int, relevance_score as int);
    let n1 = 700_000_000 * s1 + 300_000_000 * relevance_score;
    let n2 = 700_000_000 * s2 + 300_000_000 * relevance_score;
    assert(n2 - n1 >= 7 * ONE);
    assert(n1 >= 0 ==> n1 / (ONE as int) < n2 / (ONE as int));
    assert(n2 < 0 ==> (-n2) / (ONE as int) < (-n1) / (ONE as int));
    assert(n1 < 0 <= n2 ==> (-n1) / (ONE as int) > 0 || n2 / (ONE as int) > 0);
    assert(i64::MIN <= crate::fixed::quotient(n1, ONE as int) <= i64::MAX);
    assert(i64::MIN <= crate::fixed::quotient(n2, ONE as int) <= i64::MAX);
}

// ---- how time is counted ----

/// Time is counted in days of 86400 seconds: after `n` whole days the exponent of
/// the decay is `n` times the decay rate, and while no time has passed it is zero.
pub proof fn law_time_counts_in_days(decay_rate: int, last_reinforced: int, n: int, before: int)
    requires
        n >= 0,
        before <= last_reinforced,
    ensures
        decay_exponent(decay_rate, last_reinforced, last_reinforced + n * 86_400) == n * decay_rate,
        decay_exponent(decay_rate, last_reinforced, before) == 0,
{
    let m = n * decay_rate;
    let secs = n * 86_400;
    assert(decay_rate * secs == m * 86_400) by (nonlinear_arith)
        requires
            m == n * decay_rate,
            secs == n * 86_400,
    ;
    assert(m * 86_400 / 86_400 == m);
    assert((-m) * 86_400 / 86_400 == -m);
    assert(-(m * 86_400) == (-m) * 86_400);
    assert(decay_rate * 0 == 0);
}

/// A decay rate for as many days is as good as that multiple of it for one day.
pub proof fn law_days_multiply_the_rate(
    importance: int,
    access_count: nat,
    decay_rate: int,
    last_reinforced: int,
    n: int,
)
    requires
        n >= 0,
    ensures
        relevance(
            importance,
            access_count,
            decay_rate,
            last_reinforced,
            last_reinforced + n * 86_400,
        ) == relevance(
            importance,
            access_count,
            n * decay_rate,
            last_reinforced,
            last_reinforced + 86_400,
        ),
{
    law_time_counts_in_days(decay_rate, last_reinforced, n, last_reinforced);
    law_time_counts_in_days(n * decay_rate, last_reinforced, 1, last_reinforced);
}

// ---- the exponential ----

proof fn lemma_halved_once_more(v: nat, n: nat)
    ensures
        halved(v, n + 1) == halved(v, n) / 2,
    decreases n,
{
    if n > 0 {
        lemma_halved_once_more(v / 2, (n - 1) as nat);
    } else {
        assert(halved(v / 2, 0) == v / 2);
    }
}

/// Whenever the natural logarithm of two has been added to the exponent, half is
/// left of what was left before.
pub proof fn law_decay_halves(x: int)
    requires
        x >= 0,
    ensures
        decay(x + 693_147_180) == decay(x) / 2,
{
    let l = LN_2 as int;
    let v = (ONE * SERIES) as nat / exp_part((x % l) as nat);
    assert((x + l) % l == x % l);
    assert((x + l) / l == x / l + 1);
    lemma_halved_once_more(v, (x / l) as nat);
}

/// From the fifth term on, the terms fall so fast that they sum up to little more
/// than the first of them.
proof fn lemma_power_series_tail(t: nat, r: nat, i: nat, terms: nat)
    requires
        i >= 4,
        r <= 700_000_000,
    ensures
        100 * power_series(t, r, i, terms) <= 117 * t,
    decreases terms,
{
    if terms > 0 {
        let d = (i + 1) * 1_000_000_000;
        let u = t * r / (d as nat);
        vstd::arithmetic::div_mod::lemma_fundamental_div_mod((t * r) as int, d as int);
        assert(50 * u <= 7 * t) by (nonlinear_arith)
            requires
                u * d <= t * r,
                d >= 5_000_000_000,
                r <= 700_000_000,
                t >= 0,
                u >= 0,
        ;
        assert(u * d <= t * r) by (nonlinear_arith)
            requires
                t * r == d * u + (t * r) % d,
                0 <= (t * r) % d,
        ;
        lemma_power_series_tail(u, r, i + 1, (terms - 1) as nat);
    }
}

/// The next term of the sum, between bounds.
proof fn lemma_next_term(t: nat, r: nat, i: nat, terms: nat) -> (u: nat)
    requires
        terms >= 1,
        i <= 3,
    ensures
        power_series(t, r, i, terms) == t + power_series(u, r, i + 1, (terms - 1) as nat),
        i == 0 ==> 1_000_000_000 * u <= t * r < 1_000_000_000 * (u + 1),
        i == 1 ==> 2_000_000_000 * u <= t * r < 2_000_000_000 * (u + 1),
        i == 2 ==> 3_000_000_000 * u <= t * r < 3_000_000_000 * (u + 1),
        i == 3 ==> 4_000_000_000 * u <= t * r < 4_000_000_000 * (u + 1),
{
    let d = (i + 1) * 1_000_000_000;
    let u = t * r / (d as nat);
    vstd::arithmetic::div_mod::lemma_fundamental_div_mod((t * r) as int, d as int);
    vstd::arithmetic::div_mod::lemma_mod_bound((t * r) as int, d as int);
    assert(d * u <= t * r < d * (u + 1)) by (nonlinear_arith)
        requires
            t * r == d * u + (t * r) % d,
            0 <= (t * r) % d < d,
    ;
    u
}

/// Until half is left, what is left after an exponent `x` is `exp(-x)`: its
/// reciprocal lies between `1 + x + x^2/2 + x^3/6` and that with `x^4/16` added.
pub proof fn law_decay_is_exponential(x: int)
    requires
        0 <= x < 693_147_180,
    ensures
        ({
            let one = 1_000_000_000int;
            let (x2, x3, x4) = (x * x, x * x * x, x * x * x * x);
            let (one2, one3, one4) = (one * one, one * one * one, one * one * one * one);
            &&& decay(x) * (6 * one3 + 6 * one2 * x + 3 * one * x2 + x3) <= 6 * one4 + one3
            &&& (decay(x) + 1) * (48 * one4 + 48 * one3 * x + 24 * one2 * x2 + 8 * one * x3 + 3
                * x4) >= 48 * one4 * one
        }),
{
    let r = x as nat;
    let (x2, x3, x4) = (x * x, x * x * x, x * x * x * x);
    let e = exp_part(r);
    let t1 = lemma_next_term(1_000_000_000_000_000, r, 0, 17);
    let t2 = lemma_next_term(t1, r, 1, 16);
    let t3 = lemma_next_term(t2, r, 2, 15);
    let t4 = lemma_next_term(t3, r, 3, 14);
    lemma_power_series_tail(t4, r, 4, 13);
    lemma_exp_part_range(r);
    let tail = power_series(t4, r, 4, 13);
    assert(tail >= t4);
    assert(e == 1_000_000_000_000_000 + t1 + t2 + t3 + tail);
    assert(1_000_000_000_000_000 * r == 1_000_000_000 * (1_000_000 * x));
    assert(t1 == 1_000_000 * x);
    assert(t1 * r == 1_000_000 * x2) by (nonlinear_arith)
        requires
            t1 == 1_000_000 * x,
            r == x,
            x2 == x * x,
    ;
    assert(2_000_000_000 * (t2 * r) <= 1_000_000 * x3 && 1_000_000 * x3 <= 2_000_000_000 * (t2 * r)
        + 2_000_000_000 * x) by (nonlinear_arith)
        requires
            2_000_000_000 * t2 <= 1_000_000 * x2 < 2_000_000_000 * (t2 + 1),
            r == x,
            x >= 0,
            x2 == x * x,
            x3 == x * x * x,
    ;
    assert(6_000_000_000_000_000_000 * (t3 * r) <= 1_000_000 * x4) by (nonlinear_arith)
        requires
            3_000_000_000 * t3 <= t2 * r,
            2_000_000_000 * (t2 * r) <= 1_000_000 * x3,
            r == x,
            x >= 0,
            x3 == x * x * x,
            x4 == x * x * x * x,
    ;
    let v = decay(x);
    assert(x / (LN_2 as int) == 0 && x % (LN_2 as int) == x);
    let whole = 1_000_000_000_000_000_000_000_000int;
    assert(v == whole / (e as int));
    vstd::arithmetic::div_mod::lemma_fundamental_div_mod(whole, e as int);
    vstd::arithmetic::div_mod::lemma_mod_bound(whole, e as int);
    assert(v * e <= whole < (v + 1) * e) by (nonlinear_arith)
        requires
            whole == e * v + whole % (e as int),
            0 <= whole % (e as int) < e,
    ;
    assert(0 <= v <= 1_000_000_000) by {
        law_decay_ordered(0, x);
    }
    // 6 * one^2 * e lies hardly below a million times the sum up to the cube.
    let low = 6_000_000_000_000_000_000_000_000_000 + 6_000_000_000_000_000_000 * x + 3_000_000_000
        * x2 + x3;
    assert(6_000_000_000_000_000_000 * e >= 1_000_000 * low - 14_000_000_000_000_000_000);
    assert(v * low <= 6_000_000_000_000_000_000_000_000_000_000_000_000
        + 1_000_000_000_000_000_000_000_000_000) by (nonlinear_arith)
        requires
            6_000_000_000_000_000_000 * e >= 1_000_000 * low - 14_000_000_000_000_000_000,
            v * e <= 1_000_000_000_000_000_000_000_000,
            0 <= v <= 1_000_000_000,
    ;
    let high = 48_000_000_000_000_000_000_000_000_000_000_000_000
        + 48_000_000_000_000_000_000_000_000_000 * x + 24_000_000_000_000_000_000 * x2
        + 8_000_000_000 * x3 + 3 * x4;
    assert(48_000_000_000_000_000_000_000_000_000 * e <= 1_000_000 * high);
    assert((v + 1) * high >= 48_000_000_000_000_000_000_000_000_000_000_000_000_000_000_000)
        by (nonlinear_arith)
        requires
            48_000_000_000_000_000_000_000_000_000 * e <= 1_000_000 * high,
            (v + 1) * e > 1_000_000_000_000_000_000_000_000,
            0 <= v,
    ;
}

// ---- the logarithm ----

proof fn lemma_odd_series_tail(t: nat, q: nat, j: nat, terms: nat)
    requires
        q > 1,
        j >= 1,
    ensures
        3 * (q - 1) * odd_series(t, q, j, terms) <= q * t,
    decreases terms,
{
    if terms == 0 {
        let none = odd_series(t, q, j, terms);
        assert(3 * (q - 1) * none <= q * t) by (nonlinear_arith)
            requires
                none == 0,
        ;
    } else {
        let d = 2 * j + 1;
        let first = t / d;
        let u = t / q;
        let rest = odd_series(u, q, j + 1, (terms - 1) as nat);
        lemma_odd_series_tail(u, q, j + 1, (terms - 1) as nat);
        vstd::arithmetic::div_mod::lemma_fundamental_div_mod(t as int, d as int);
        vstd::arithmetic::div_mod::lemma_fundamental_div_mod(t as int, q as int);
        assert(3 * first <= t) by (nonlinear_arith)
            requires
                d * first <= t,
                d >= 3,
                first >= 0,
        ;
        assert(3 * (q - 1) * (first + rest) <= q * t) by (nonlinear_arith)
            requires
                3 * first <= t,
                3 * (q - 1) * rest <= q * u,
                q * u <= t,
                q > 1,
        ;
    }
}

/// Without a retrieval a memory has a strength of 0.3, and the `n`-th retrieval
/// adds `0.15 * ln((n + 1) / n)` to it, until it is whole. That lies between
/// `0.15 * 2 / (2n + 1)` and `1 + 1 / (12 n (n + 1))` times as much.
pub proof fn law_each_retrieval_adds(n: nat)
    requires
        n >= 1,
    ensures
        strength(0) == 300_000_000,
        strength(n) <= 1_000_000_000,
        ({
            let more = strength(n) - strength((n - 1) as nat);
            let m = 12 * n * (n + 1);
            &&& strength(n) < 1_000_000_000 ==> (2 * n + 1) * (more + 2) >= 300_000_000
            &&& m * (2 * n + 1) * (more - 1) <= (m + 1) * 300_000_000
        }),
{
    let s = 1_000_000_000_000_000int;
    let w = (2 * n + 1) as int;
    let q = w * w;
    let m = 12 * n * (n + 1);
    assert(3 * (q - 1) == m && q > 1) by (nonlinear_arith)
        requires
            w == 2 * n + 1,
            q == w * w,
            m == 12 * n * (n + 1),
            n >= 1,
    ;
    let t = 2 * s / w;
    vstd::arithmetic::div_mod::lemma_fundamental_div_mod(2 * s, w);
    vstd::arithmetic::div_mod::lemma_mod_bound(2 * s, w);
    let rest = odd_series((t / q) as nat, q as nat, 1, 16);
    vstd::arithmetic::div_mod::lemma_div_pos_is_pos(t, q);
    lemma_odd_series_tail((t / q) as nat, q as nat, 1, 16);
    vstd::arithmetic::div_mod::lemma_fundamental_div_mod(t, q);
    vstd::arithmetic::div_mod::lemma_mod_bound(t, q);
    let step = log_step(n) as int;
    assert(step == t + rest) by {
        assert(t / 1 == t);
    }
    assert(m * rest <= t);
    let before = log_one_plus((n - 1) as nat) as int;
    let after = log_one_plus(n) as int;
    assert(after == before + step);
    let a = raw_strength((n - 1) as nat) as int;
    let b = raw_strength(n) as int;
    assert(100_000_000 * (b - a + 1) >= 15 * step);
    assert(100_000_000 * (b - a - 1) <= 15 * step);
    law_strength_grows((n - 1) as nat, n);
    assert(a <= b) by {
        vstd::arithmetic::div_mod::lemma_div_is_ordered(15 * before, 15 * after, 100_000_000);
    }
    let more = strength(n) - strength((n - 1) as nat);
    assert(more <= b - a);
    assert(w * t <= 2 * s && 2 * s <= w * t + w);
    if strength(n) < 1_000_000_000 {
        assert(w * (more + 2) >= 300_000_000) by (nonlinear_arith)
            requires
                100_000_000 * (more + 1) >= 15 * step,
                step >= t,
                2_000_000_000_000_000 <= w * t + w,
                w >= 1,
        ;
    }
    assert(m * w * (more - 1) <= (m + 1) * 300_000_000) by (nonlinear_arith)
        requires
            100_000_000 * (more - 1) <= 15 * step,
            step == t + rest,
            m * rest <= t,
            w * t <= 2_000_000_000_000_000,
            w >= 1,
            m >= 1,
            t >= 0,
    {
        let c = 100_000_000 * (more - 1);
        assert(m * w * c <= m * w * (15 * step));
        assert(m * w * (15 * step) == 15 * (w * (m * t) + w * (m * rest)));
        assert(w * (m * rest) <= w * t);
        assert(w * (m * t) == m * (w * t));
        assert(m * (w * t) <= m * 2_000_000_000_000_000);
        assert(m * w * c == 100_000_000 * (m * w * (more - 1)));
    }
}

// ---- the parts of a relevance score ----

/// A memory that was just reinforced has its importance times its strength, and
/// three tenths of its importance, but no more than one.
pub proof fn law_fresh_relevance(
    importance: int,
    access_count: nat,
    decay_rate: int,
    last_reinforced: int,
    now: int,
)
    requires
        0 <= importance <= 1_000_000_000,
        now <= last_reinforced,
    ensures
        ({
            let whole = importance * strength(access_count) / 1_000_000_000 + 3 * importance / 10;
            relevance(importance, access_count, decay_rate, last_reinforced, now) == if whole
                < 1_000_000_000 {
                whole
            } else {
                1_000_000_000
            }
        }),
{
    law_time_counts_in_days(decay_rate, last_reinforced, 0, now);
    law_decay_ordered(0, 0);
    law_strength_grows(0, access_count);
    crate::fixed::lemma_product_shrinks(importance, strength(access_count));
    let p = crate::fixed::product(importance, strength(access_count)) as int;
    assert(importance * strength(access_count) >= 0) by (nonlinear_arith)
        requires
            importance >= 0,
            strength(access_count) >= 0,
    ;
    assert(p == importance * strength(access_count) / 1_000_000_000);
    assert(p * ONE / (ONE as int) == p);
}

/// With a decay rate of the natural logarithm of two, each day without rehearsal
/// halves what lies above three tenths of the importance, up to rounding.
pub proof fn law_half_life(importance: int, access_count: nat, last_reinforced: int, n: int)
    requires
        0 <= importance <= 1_000_000_000,
        n >= 0,
        relevance(importance, access_count, 0, last_reinforced, last_reinforced) < 1_000_000_000,
    ensures
        ({
            let floor = 3 * importance / 10;
            let today = relevance(
                importance,
                access_count,
                693_147_180,
                last_reinforced,
                last_reinforced + n * 86_400,
            ) - floor;
            let tomorrow = relevance(
                importance,
                access_count,
                693_147_180,
                last_reinforced,
                last_reinforced + (n + 1) * 86_400,
            ) - floor;
            0 <= tomorrow && today - 2 <= 2 * tomorrow <= today
        }),
{
    let x = n * 693_147_180;
    law_time_counts_in_days(693_147_180, last_reinforced, n, last_reinforced);
    law_time_counts_in_days(693_147_180, last_reinforced, n + 1, last_reinforced);
    law_fresh_relevance(importance, access_count, 0, last_reinforced, last_reinforced);
    law_decay_halves(x);
    law_decay_ordered(0, x);
    law_decay_ordered(0, x + 693_147_180);
    law_strength_grows(0, access_count);
    crate::fixed::lemma_product_shrinks(importance, strength(access_count));
    let p = crate::fixed::product(importance, strength(access_count)) as int;
    let v = decay(x);
    let w = decay(x + 693_147_180);
    crate::fixed::lemma_product_shrinks(p, v);
    crate::fixed::lemma_product_shrinks(p, w);
    let pv = p * v;
    let pw = p * w;
    assert(pv - p <= 2 * pw <= pv && 0 <= pw) by (nonlinear_arith)
        requires
            pv == p * v,
            pw == p * w,
            v - 1 <= 2 * w <= v,
            0 <= w,
            p >= 0,
    ;
    assert(importance * strength(access_count) >= 0) by (nonlinear_arith)
        requires
            importance >= 0,
            strength(access_count) >= 0,
    ;
    assert(p <= 1_000_000_000);
    assert(pv / 1_000_000_000 - 2 <= 2 * (pw / 1_000_000_000) <= pv / 1_000_000_000);
}

/// Twice the importance makes twice the relevance, up to rounding and up to one.
pub proof fn law_relevance_grows_with_importance(
    importance: int,
    access_count: nat,
    decay_rate: int,
    last_reinforced: int,
    now: int,
)
    requires
        0 <= 2 * importance <= 1_000_000_000,
        decay_rate >= 0,
    ensures
        ({
            let one = relevance(importance, access_count, decay_rate, last_reinforced, now);
            let two = relevance(2 * importance, access_count, decay_rate, last_reinforced, now);
            &&& two <= 2 * one + 3
            &&& two >= 2 * one || two == 1_000_000_000
        }),
{
    let x = decay_exponent(decay_rate, last_reinforced, now);
    assert(x >= 0) by {
        let secs = if now > last_reinforced {
            now - last_reinforced
        } else {
            0
        };
        assert(decay_rate * secs >= 0) by (nonlinear_arith)
            requires
                decay_rate >= 0,
                secs >= 0,
        ;
    }
    law_decay_ordered(0, x);
    law_strength_grows(0, access_count);
    let k = strength(access_count);
    let v = decay(x);
    crate::fixed::lemma_product_shrinks(importance, k);
    crate::fixed::lemma_product_shrinks(2 * importance, k);
    let p = crate::fixed::product(importance, k) as int;
    let p2 = crate::fixed::product(2 * importance, k) as int;
    let ik = importance * k;
    assert((2 * importance) * k == 2 * ik && ik >= 0) by (nonlinear_arith)
        requires
            ik == importance * k,
            importance >= 0,
            k >= 0,
    ;
    assert(p == ik / 1_000_000_000 && p2 == 2 * ik / 1_000_000_000);
    assert(2 * p <= p2 <= 2 * p + 1);
    crate::fixed::lemma_product_shrinks(p, v);
    crate::fixed::lemma_product_shrinks(p2, v);
    let pv = p * v;
    let p2v = p2 * v;
    assert(2 * pv <= p2v <= 2 * pv + v && pv >= 0) by (nonlinear_arith)
        requires
            pv == p * v,
            p2v == p2 * v,
            2 * p <= p2 <= 2 * p + 1,
            v >= 0,
            p >= 0,
    ;
    assert(v <= 1_000_000_000);
    assert(2 * (pv / 1_000_000_000) <= p2v / 1_000_000_000 <= 2 * (pv / 1_000_000_000) + 2);
}

/// The decay rate falls from 0.07 per day for what has no importance, by way of
/// 0.035 for an importance of one half, to 0.01 for the highest, and nowhere much
/// faster or slower than elsewhere: by 0.05 to 0.0725 for the whole of importance.
pub proof fn law_decay_rate_falls_evenly(a: int, b: int)
    requires
        0 <= a <= b <= 1_000_000_000,
    ensures
        decay_rate_of(0) == 70_000_000,
        decay_rate_of(500_000_000) == 35_000_000,
        decay_rate_of(1_000_000_000) == 10_000_000,
        50 * (b - a) <= 1_000 * (decay_rate_of(a) - decay_rate_of(b) + 2),
        145 * (b - a) >= 2_000 * (decay_rate_of(a) - decay_rate_of(b) - 2),
{
}

} // verus!
