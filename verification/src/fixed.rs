//! Fixed-point arithmetic: scores are whole numbers of billionths, box
//! coordinates whole numbers of sub-pixels, and every rounding is stated.

use vstd::arithmetic::div_mod::lemma_fundamental_div_mod;
use vstd::prelude::*;

verus! {

/// One unit of a score: scores are counted in billionths.
pub const ONE: u64 = 1_000_000_000;

/// The top of the scale the normalized factors share: a hundred points.
pub const HUNDRED: u64 = 100_000_000_000;

/// `num / den`, counted in billionths and rounded down.
pub open spec fn billionths(num: int, den: int) -> int {
    num * ONE / den
}

/// Whether `r` is the square root of `x`, rounded down.
pub open spec fn is_root(x: int, r: int) -> bool {
    0 <= r && r * r <= x && x < (r + 1) * (r + 1)
}

/// The square root of `x`, rounded down.
pub open spec fn root(x: int) -> int {
    choose|r: int| is_root(x, r)
}

/// A number has at most one rounded-down square root.
pub proof fn root_is_unique(x: int, a: int, b: int)
    requires
        is_root(x, a),
        is_root(x, b),
    ensures
        a == b,
{
    if a < b {
        assert((a + 1) * (a + 1) <= b * b) by (nonlinear_arith)
            requires
                0 <= a,
                a + 1 <= b,
        ;
    } else if b < a {
        assert((b + 1) * (b + 1) <= a * a) by (nonlinear_arith)
            requires
                0 <= b,
                b + 1 <= a,
        ;
    }
}

/// Every number from zero on has a rounded-down square root.
pub proof fn root_exists(x: int)
    requires
        0 <= x,
    ensures
        is_root(x, root(x)),
    decreases x,
{
    if x == 0 {
        assert(is_root(0, 0));
    } else {
        root_exists(x - 1);
        let r = root(x - 1);
        assert((r + 1) * (r + 1) < (r + 2) * (r + 2)) by (nonlinear_arith)
            requires
                0 <= r,
        ;
        assert(is_root(x, r) || is_root(x, r + 1));
    }
}

/// The larger of two numbers has no smaller rounded-down square root.
pub proof fn root_rises(a: int, b: int)
    requires
        0 <= a <= b,
    ensures
        root(a) <= root(b),
{
    root_exists(a);
    root_exists(b);
    let r = root(a);
    let t = root(b);
    if t < r {
        assert((t + 1) * (t + 1) <= r * r) by (nonlinear_arith)
            requires
                0 <= t,
                t + 1 <= r,
        ;
    }
}

/// The square root of `x`, rounded down.
pub fn isqrt(x: u128) -> (r: u64)
    ensures
        is_root(x as int, r as int),
        r == root(x as int),
{
    let mut lo: u128 = 0;
    let mut hi: u128 = 0x1_0000_0000_0000_0000;
    assert(hi * hi > x) by (nonlinear_arith)
        requires
            hi == 0x1_0000_0000_0000_0000,
            x <= 0xffff_ffff_ffff_ffff_ffff_ffff_ffff_ffff,
    ;
    while hi - lo > 1
        invariant
            lo < hi <= 0x1_0000_0000_0000_0000,
            lo * lo <= x,
            x < hi * hi,
        decreases hi - lo,
    {
        let mid: u128 = lo + (hi - lo) / 2;
        assert(mid * mid <= 0xffff_ffff_ffff_ffff * 0xffff_ffff_ffff_ffff) by (nonlinear_arith)
            requires
                0 <= mid <= 0xffff_ffff_ffff_ffff,
        ;
        if mid * mid <= x {
            lo = mid;
        } else {
            hi = mid;
        }
    }
    proof {
        assert(hi == lo + 1);
        assert(is_root(x as int, lo as int));
        root_is_unique(x as int, lo as int, root(x as int));
    }
    lo as u64
}

/// `a / b`, rounded down also below zero.
pub fn floor_div(a: i64, b: i64) -> (r: i64)
    requires
        0 < b,
        i64::MIN < a,
    ensures
        r == a as int / b as int,
{
    if a >= 0 {
        ((a as u64) / (b as u64)) as i64
    } else {
        let below: u64 = (-(a + 1)) as u64 / b as u64;
        assert(below <= -(a + 1) && a as int / b as int == -(below as int) - 1) by (nonlinear_arith)
            requires
                below as int == -(a + 1) / (b as int),
                a < 0,
                0 < b,
        ;
        -(below as i64) - 1
    }
}

/// `num / den`, rounded to the nearest whole number, halves to the even one.
pub open spec fn nearest_even(num: int, den: int) -> int {
    let q = num / den;
    let r = num % den;
    if 2 * r < den || (2 * r == den && q % 2 == 0) {
        q
    } else {
        q + 1
    }
}

/// `num / den`, rounded to the nearest whole number, halves to the even one.
pub fn divide_nearest_even(num: u64, den: u64) -> (r: u64)
    requires
        0 < den <= 0x7fff_ffff_ffff_ffff,
        num < u64::MAX,
    ensures
        r == nearest_even(num as int, den as int),
{
    let q: u64 = num / den;
    let rest: u64 = num % den;
    assert(q <= num) by (nonlinear_arith)
        requires
            q == num / den,
            den > 0,
    ;
    if 2 * rest < den || (2 * rest == den && q % 2 == 0) {
        q
    } else {
        q + 1
    }
}

/// The power of two by which `num / den` has to be multiplied to have the 24
/// bits before the point that single precision keeps.
pub open spec fn scale_power(num: int, den: int) -> int
    decreases 16_777_216 * den - num,
{
    if num <= 0 || num >= 8_388_608 * den {
        1
    } else {
        2 * scale_power(2 * num, den)
    }
}

/// The power of two by which a whole number has to be divided to have no more
/// than the 24 bits that single precision keeps.
pub open spec fn excess_power(v: int) -> int
    decreases v,
{
    if v < 16_777_216 {
        1
    } else {
        2 * excess_power(v / 2)
    }
}

/// A whole number as single precision holds it: rounded to 24 bits, halves to
/// even.
pub open spec fn to_single(v: int) -> int {
    nearest_even(v, excess_power(v)) * excess_power(v)
}

/// The power of two that gives `num / den` 24 bits before the point.
pub fn single_scale(num: u64, den: u64) -> (r: u64)
    requires
        0 < num <= 0x100_0000,
        0 < den <= 0x10_0000,
    ensures
        r == scale_power(num as int, den as int),
        r >= 1,
        num * r >= 8_388_608 * den,
        num * r < 16_777_216 * den || r == 1,
{
    let mut power: u64 = 1;
    let mut scaled: u64 = num;
    while scaled < 8_388_608 * den
        invariant
            0 < num <= 0x100_0000,
            0 < den <= 0x10_0000,
            power >= 1,
            scaled == num * power,
            scaled >= power,
            scaled < 16_777_216 * den || power == 1,
            scaled <= 0x1_0000_0000_0000,
            scale_power(num as int, den as int) == power * scale_power(scaled as int, den as int),
        decreases 16_777_216 * den - scaled,
    {
        proof {
            let rest = scale_power(2 * scaled, den as int);
            assert(power * (2 * rest) == (2 * power) * rest) by (nonlinear_arith);
            assert(num * (2 * power) == 2 * (num * power)) by (nonlinear_arith);
        }
        scaled = 2 * scaled;
        power = 2 * power;
    }
    assert(power * 1 == power);
    power
}

proof fn excess_bounds(v: int)
    requires
        0 <= v,
    ensures
        excess_power(v) >= 1,
        excess_power(v) == 1 || excess_power(v) * 8_388_608 <= v,
    decreases v,
{
    if v >= 16_777_216 {
        excess_bounds(v / 2);
    }
}

/// A whole number as single precision holds it.
pub fn round_to_single(v: u64) -> (r: u64)
    requires
        v <= 0x1000_0000_0000_0000,
    ensures
        r == to_single(v as int),
        r <= 2 * v,
{
    let mut power: u64 = 1;
    let mut rest: u64 = v;
    while rest >= 16_777_216
        invariant
            v <= 0x1000_0000_0000_0000,
            power >= 1,
            rest * power <= v,
            power <= v || power == 1,
            excess_power(v as int) == power * excess_power(rest as int),
        decreases rest,
    {
        proof {
            let more = excess_power(rest as int / 2);
            assert(power * (2 * more) == (2 * power) * more) by (nonlinear_arith);
            assert((rest / 2) * (2 * power) <= rest * power && 2 * power <= rest * power)
                by (nonlinear_arith)
                requires
                    rest >= 16_777_216,
                    power >= 1,
            ;
        }
        rest = rest / 2;
        power = 2 * power;
    }
    assert(power * 1 == power);
    proof {
        single_error(v as int);
    }
    divide_nearest_even(v, power) * power
}

/// Rounding to single precision changes a number by no more than its two to
/// the 24th part.
pub proof fn single_error(v: int)
    requires
        0 <= v,
    ensures
        0 <= to_single(v),
        2 * (to_single(v) - v) <= excess_power(v),
        2 * (v - to_single(v)) <= excess_power(v),
        v < 16_777_216 ==> to_single(v) == v,
        16_777_216 * (to_single(v) - v) <= v,
        16_777_216 * (v - to_single(v)) <= v,
{
    let p = excess_power(v);
    excess_bounds(v);
    lemma_fundamental_div_mod(v, p);
    let q = v / p;
    let r = v % p;
    let n = nearest_even(v, p);
    assert(0 <= r < p && v == p * q + r && 0 <= q) by (nonlinear_arith)
        requires
            q == v / p,
            r == v % p,
            p >= 1,
            v >= 0,
    ;
    assert(q * p == p * q && (q + 1) * p == p * q + p) by (nonlinear_arith);
    assert(n * p >= 0) by (nonlinear_arith)
        requires
            n >= 0,
            p >= 1,
    ;
    if v < 16_777_216 {
        assert(v / 1 == v && v % 1 == 0);
    }
}

/// Rounding to the nearest whole number is off by half at most, and where it is
/// off by just half the result is even.
pub proof fn nearest_is_within_a_half(num: int, den: int)
    requires
        0 < den,
    ensures
        -den <= 2 * (den * nearest_even(num, den) - num) <= den,
        2 * (den * nearest_even(num, den) - num) == den || 2 * (den * nearest_even(num, den) - num)
            == -den ==> nearest_even(num, den) % 2 == 0,
{
    lemma_fundamental_div_mod(num, den);
    let q = num / den;
    assert(den * (q + 1) == den * q + den) by (nonlinear_arith);
    assert(0 <= num % den < den) by (nonlinear_arith)
        requires
            0 < den,
    ;
}

/// Billionths are rounded down.
pub proof fn billionths_round_down(num: int, den: int)
    requires
        0 < den,
    ensures
        den * billionths(num, den) <= 1_000_000_000 * num < den * (billionths(num, den) + 1),
{
    let q = num * 1_000_000_000 / den;
    assert(den * q <= 1_000_000_000 * num < den * (q + 1)) by (nonlinear_arith)
        requires
            q == num * 1_000_000_000 / den,
            0 < den,
    ;
}

} // verus!
