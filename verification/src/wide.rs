//! Numbers of 256 bits, for products of two numbers of 128 bits.

use vstd::prelude::*;

verus! {

/// A number in two halves.
#[derive(Debug, Clone, Copy)]
pub struct Wide {
    pub high: u128,
    pub low: u128,
}

/// Where the upper half begins.
pub open spec fn half() -> int {
    0x1_0000_0000_0000_0000_0000_0000_0000_0000int
}

impl View for Wide {
    type V = int;

    open spec fn view(&self) -> int {
        self.high * half() + self.low
    }
}

/// Splits a number of 128 bits into its halves.
fn halves(x: u128) -> (r: (u128, u128))
    ensures
        x == r.0 * 0x1_0000_0000_0000_0000 + r.1,
        r.0 < 0x1_0000_0000_0000_0000,
        r.1 < 0x1_0000_0000_0000_0000,
{
    (x / 0x1_0000_0000_0000_0000, x % 0x1_0000_0000_0000_0000)
}

/// The product of two halves.
fn multiply_halves(x: u128, y: u128) -> (r: u128)
    requires
        x < 0x1_0000_0000_0000_0000,
        y < 0x1_0000_0000_0000_0000,
    ensures
        r == x * y,
        r <= 0xffff_ffff_ffff_fffe_0000_0000_0000_0001,
{
    assert(0 <= x * y <= 0xffff_ffff_ffff_ffff * 0xffff_ffff_ffff_ffff) by (nonlinear_arith)
        requires
            0 <= x <= 0xffff_ffff_ffff_ffff,
            0 <= y <= 0xffff_ffff_ffff_ffff,
    ;
    x * y
}

/// Multiplies two numbers.
pub fn multiply_wide(x: u128, y: u128) -> (r: Wide)
    ensures
        r@ == x * y,
{
    let (x1, x0): (u128, u128) = halves(x);
    let (y1, y0): (u128, u128) = halves(y);
    let a: u128 = multiply_halves(x0, y0);
    let b: u128 = multiply_halves(x0, y1);
    let c: u128 = multiply_halves(x1, y0);
    let d: u128 = multiply_halves(x1, y1);
    let (a1, a0): (u128, u128) = halves(a);
    let (m1, m0): (u128, u128) = halves(b + a1);
    let (n1, n0): (u128, u128) = halves(c + m0);
    let r = Wide { high: d + m1 + n1, low: n0 * 0x1_0000_0000_0000_0000 + a0 };
    proof {
        let w: int = 0x1_0000_0000_0000_0000;
        assert(half() == w * w);
        assert(x * y == d * half() + (b + c) * w + a) by (nonlinear_arith)
            requires
                half() == w * w,
                x == x1 * w + x0,
                y == y1 * w + y0,
                a == x0 * y0,
                b == x0 * y1,
                c == x1 * y0,
                d == x1 * y1,
        ;
    }
    r
}

/// Multiplies a number by ten.
pub fn times_ten(x: Wide) -> (r: Wide)
    requires
        x.high < 0x1000_0000_0000_0000_0000_0000_0000_0000,
    ensures
        r@ == 10 * x@,
{
    let (l1, l0): (u128, u128) = halves(x.low);
    let (a1, a0): (u128, u128) = halves(l0 * 10);
    let (b1, b0): (u128, u128) = halves(l1 * 10 + a1);
    Wide { high: x.high * 10 + b1, low: b0 * 0x1_0000_0000_0000_0000 + a0 }
}

/// Tells whether a number is at least as large as another one.
pub fn at_least(x: Wide, y: Wide) -> (r: bool)
    ensures
        r == (x@ >= y@),
{
    x.high > y.high || (x.high == y.high && x.low >= y.low)
}

/// Subtracts a number from one that is at least as large.
pub fn subtract(x: Wide, y: Wide) -> (r: Wide)
    requires
        x@ >= y@,
    ensures
        r@ == x@ - y@,
{
    if x.low >= y.low {
        Wide { high: x.high - y.high, low: x.low - y.low }
    } else {
        Wide { high: x.high - y.high - 1, low: u128::MAX - y.low + x.low + 1 }
    }
}

/// The powers of ten.
pub open spec fn power_of_10(n: nat) -> int
    decreases n,
{
    if n == 0 {
        1
    } else {
        10 * power_of_10((n - 1) as nat)
    }
}

/// Computes a fraction with eighteen decimal places, rounded down, digit by digit.
pub fn compute_places(n: Wide, d: Wide) -> (r: u64)
    requires
        n@ < d@,
        d.high < 0x1000_0000_0000_0000_0000_0000_0000_0000,
    ensures
        r == n@ * 1_000_000_000_000_000_000 / d@,
        r < 1_000_000_000_000_000_000,
{
    let mut whole: u64 = 0;
    let mut rest = n;
    let mut i: u32 = 0;
    let ghost m = d@;
    assert(power_of_10(18) == 1_000_000_000_000_000_000) by {
        reveal_with_fuel(power_of_10, 19);
    }
    assert(n@ * power_of_10(0) == 0 * m + n@) by (nonlinear_arith)
        requires
            power_of_10(0) == 1,
    ;
    while i < 18
        invariant
            i <= 18,
            m == d@,
            0 <= n@ < m,
            d.high < 0x1000_0000_0000_0000_0000_0000_0000_0000,
            n@ * power_of_10(i as nat) == whole * m + rest@,
            0 <= rest@ < m,
            whole < power_of_10(i as nat) <= 1_000_000_000_000_000_000,
        decreases 18 - i,
    {
        let ghost p = power_of_10(i as nat);
        let ghost before = whole as int;
        let ghost left = rest@;
        assert(rest.high < 0x1000_0000_0000_0000_0000_0000_0000_0000);
        assert(power_of_10((i + 1) as nat) == 10 * p);
        assert(10 * p <= 1_000_000_000_000_000_000) by {
            reveal_with_fuel(power_of_10, 19);
        }
        rest = times_ten(rest);
        let mut digit: u64 = 0;
        assert(10 * left == 0 * m + rest@) by (nonlinear_arith)
            requires
                10 * left == rest@,
        ;
        while at_least(rest, d)
            invariant
                m == d@,
                0 < m,
                0 <= left < m,
                10 * left == digit * m + rest@,
                0 <= rest@,
                digit <= 9,
            ensures
                10 * left == digit * m + rest@,
                0 <= rest@ < m,
                digit <= 9,
            decreases rest@,
        {
            assert(digit < 9) by (nonlinear_arith)
                requires
                    10 * left == digit * m + rest@,
                    rest@ >= m,
                    left < m,
                    m > 0,
                    digit >= 0,
            ;
            assert((digit + 1) * m == digit * m + m) by (nonlinear_arith);
            rest = subtract(rest, d);
            digit = digit + 1;
        }
        whole = whole * 10 + digit;
        i = i + 1;
        proof {
            assert(n@ * (10 * p) == whole * m + rest@) by (nonlinear_arith)
                requires
                    n@ * p == before * m + left,
                    10 * left == digit * m + rest@,
                    whole == before * 10 + digit,
            ;
            assert(whole < 10 * p) by (nonlinear_arith)
                requires
                    n@ * (10 * p) == whole * m + rest@,
                    0 <= n@ < m,
                    0 <= rest@,
                    p > 0,
            ;
        }
    }
    proof {
        vstd::arithmetic::div_mod::lemma_fundamental_div_mod_converse(
            n@ * 1_000_000_000_000_000_000,
            m,
            whole as int,
            rest@,
        );
    }
    whole
}

} // verus!
