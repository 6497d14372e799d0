//! Exact sums over sequences of whole numbers, and the variance they give.

use vstd::arithmetic::div_mod::{lemma_div_denominator, lemma_div_multiples_vanish};
use vstd::prelude::*;

use crate::fixed::{billionths, ONE};

verus! {

/// The sum of the numbers.
pub open spec fn total(s: Seq<int>) -> int
    decreases s.len(),
{
    if s.len() == 0 {
        0
    } else {
        total(s.drop_last()) + s.last()
    }
}

/// The sum of the squares of the numbers.
pub open spec fn total_squares(s: Seq<int>) -> int
    decreases s.len(),
{
    if s.len() == 0 {
        0
    } else {
        total_squares(s.drop_last()) + s.last() * s.last()
    }
}

/// The sum of the squared deviations of the numbers from `sum / n`, each
/// deviation multiplied by `n`.
pub open spec fn deviations(s: Seq<int>, n: int, sum: int) -> int
    decreases s.len(),
{
    if s.len() == 0 {
        0
    } else {
        deviations(s.drop_last(), n, sum) + (n * s.last() - sum) * (n * s.last() - sum)
    }
}

/// The mean squared deviation from the mean, in billionths, rounded down;
/// zero for no numbers at all.
pub open spec fn variance_of(s: Seq<int>) -> int {
    let n = s.len() as int;
    if n == 0 {
        0
    } else {
        billionths(deviations(s, n, total(s)), n * (n * n))
    }
}

proof fn deviations_expand(s: Seq<int>, n: int, sum: int)
    ensures
        deviations(s, n, sum) == n * n * total_squares(s) - 2 * (n * sum * total(s)) + s.len() * (
        sum * sum),
        deviations(s, n, sum) >= 0,
        total_squares(s) >= 0,
    decreases s.len(),
{
    if s.len() > 0 {
        let v = s.last();
        let t = s.drop_last();
        deviations_expand(t, n, sum);
        let l = t.len() as int;
        let q = total_squares(t);
        let m = total(t);
        assert((n * v - sum) * (n * v - sum) == n * n * (v * v) - 2 * (n * sum * v) + sum * sum)
            by (nonlinear_arith);
        assert(n * n * (q + v * v) == n * n * q + n * n * (v * v)) by (nonlinear_arith);
        assert(n * sum * (m + v) == n * sum * m + n * sum * v) by (nonlinear_arith);
        assert((l + 1) * (sum * sum) == l * (sum * sum) + sum * sum) by (nonlinear_arith);
        assert((n * v - sum) * (n * v - sum) >= 0) by (nonlinear_arith);
        assert(v * v >= 0) by (nonlinear_arith);
    }
}

/// The squared deviations from the mean, computed from the two plain sums.
pub proof fn deviations_from_sums(s: Seq<int>)
    requires
        s.len() > 0,
    ensures
        s.len() * total_squares(s) - total(s) * total(s) >= 0,
        deviations(s, s.len() as int, total(s)) == s.len() * (s.len() * total_squares(s) - total(s)
            * total(s)),
{
    let n = s.len() as int;
    let q = total_squares(s);
    let m = total(s);
    let x = n * q - m * m;
    deviations_expand(s, n, m);
    assert(n * n * q - 2 * (n * m * m) + n * (m * m) == n * x) by (nonlinear_arith)
        requires
            x == n * q - m * m,
    ;
    assert(x >= 0) by (nonlinear_arith)
        requires
            n * x >= 0,
            n > 0,
    ;
}

/// The variance computed from the two plain sums: the mean of the squares
/// less the square of the mean.
pub proof fn variance_from_sums(s: Seq<int>)
    requires
        s.len() > 0,
    ensures
        s.len() * total_squares(s) - total(s) * total(s) >= 0,
        variance_of(s) == billionths(
            s.len() * total_squares(s) - total(s) * total(s),
            s.len() * s.len() as int,
        ),
{
    let n = s.len() as int;
    let m = total(s);
    let x = n * total_squares(s) - m * m;
    deviations_from_sums(s);
    assert(n * n > 0) by (nonlinear_arith)
        requires
            n > 0,
    ;
    lemma_div_denominator(n * x * ONE, n, n * n);
    lemma_div_multiples_vanish(x * ONE, n);
    assert(n * (x * ONE) == n * x * ONE) by (nonlinear_arith);
}

proof fn equal_total(s: Seq<int>, v: int)
    requires
        forall|i: int| 0 <= i < s.len() ==> #[trigger] s[i] == v,
    ensures
        total(s) == s.len() * v,
    decreases s.len(),
{
    if s.len() > 0 {
        equal_total(s.drop_last(), v);
        assert(s.last() == s[s.len() - 1]);
        assert((s.len() - 1) * v + v == s.len() * v) by (nonlinear_arith);
    } else {
        assert(s.len() * v == 0) by (nonlinear_arith)
            requires
                s.len() == 0,
        ;
    }
}

proof fn equal_deviations(s: Seq<int>, v: int, n: int)
    requires
        forall|i: int| 0 <= i < s.len() ==> #[trigger] s[i] == v,
    ensures
        deviations(s, n, n * v) == 0,
    decreases s.len(),
{
    if s.len() > 0 {
        equal_deviations(s.drop_last(), v, n);
        assert(s.last() == s[s.len() - 1]);
        assert((n * v - n * v) * (n * v - n * v) == 0) by (nonlinear_arith);
    }
}

/// Numbers that are all equal do not vary.
pub proof fn equal_numbers_do_not_vary(s: Seq<int>, v: int)
    requires
        forall|i: int| 0 <= i < s.len() ==> #[trigger] s[i] == v,
    ensures
        deviations(s, s.len() as int, total(s)) == 0,
        total(s) == s.len() * v,
        variance_of(s) == 0,
{
    let n = s.len() as int;
    equal_total(s, v);
    equal_deviations(s, v, n);
    if n > 0 {
        assert(n * (n * n) > 0) by (nonlinear_arith)
            requires
                n > 0,
        ;
        assert(0int * ONE / (n * (n * n)) == 0) by (nonlinear_arith)
            requires
                n * (n * n) > 0,
        ;
    }
}

proof fn squares_bound(s: Seq<int>, bound: int)
    requires
        forall|i: int| 0 <= i < s.len() ==> -bound <= #[trigger] s[i] <= bound,
        0 <= bound,
    ensures
        -(s.len() * bound) <= total(s) <= s.len() * bound,
        0 <= total_squares(s) <= s.len() * (bound * bound),
    decreases s.len(),
{
    if s.len() > 0 {
        let t = s.drop_last();
        let v = s.last();
        let l = t.len() as int;
        squares_bound(t, bound);
        assert(v == s[s.len() - 1]);
        assert(0 <= v * v <= bound * bound) by (nonlinear_arith)
            requires
                -bound <= v <= bound,
        ;
        assert((l + 1) * bound == l * bound + bound) by (nonlinear_arith);
        assert((l + 1) * (bound * bound) == l * (bound * bound) + bound * bound)
            by (nonlinear_arith);
    } else {
        assert(s.len() * bound == 0) by (nonlinear_arith)
            requires
                s.len() == 0,
        ;
        assert(s.len() * (bound * bound) == 0) by (nonlinear_arith)
            requires
                s.len() == 0,
        ;
    }
}

/// The variance of `n` numbers with the given sums, in billionths.
pub(crate) fn variance_from_moments(
    n: u64,
    sum: i64,
    squares: u64,
    Ghost(s): Ghost<Seq<int>>,
) -> (r: u64)
    requires
        n == s.len(),
        n <= u32::MAX,
        sum == total(s),
        squares == total_squares(s),
        forall|i: int| 0 <= i < s.len() ==> -32768 <= #[trigger] s[i] <= 32768,
    ensures
        r == variance_of(s),
{
    if n == 0 {
        return 0;
    }
    let magnitude: u128 = if sum < 0 {
        (-(sum as i128)) as u128
    } else {
        sum as u128
    };
    proof {
        squares_bound(s, 32768);
        variance_from_sums(s);
        assert(magnitude * magnitude == sum * sum) by (nonlinear_arith)
            requires
                magnitude == sum || magnitude == -sum,
        ;
        assert(n * squares <= n * (n * 1073741824)) by (nonlinear_arith)
            requires
                squares <= n * 1073741824,
                0 <= n,
        ;
        assert(n * (n * 1073741824) <= 0xffff_ffff * (0xffff_ffff * 1073741824)) by (nonlinear_arith)
            requires
                0 <= n <= 0xffff_ffff,
        ;
        assert(n * n <= 0xffff_ffff * 0xffff_ffff) by (nonlinear_arith)
            requires
                0 <= n <= 0xffff_ffff,
        ;
        assert(n * n > 0) by (nonlinear_arith)
            requires
                n > 0,
        ;
        assert(sum * sum >= 0) by (nonlinear_arith);
    }
    let spread: u128 = n as u128 * squares as u128 - magnitude * magnitude;
    let den: u128 = n as u128 * n as u128;
    proof {
        assert(spread <= den * 1073741824) by (nonlinear_arith)
            requires
                spread <= n * (n * 1073741824),
                den == n * n,
        ;
        assert(spread * 1_000_000_000 <= 1_073_741_824_000_000_000 * den) by (nonlinear_arith)
            requires
                spread <= den * 1073741824,
        ;
        assert(spread * 1_000_000_000 / den as int <= 1_073_741_824_000_000_000)
            by (nonlinear_arith)
            requires
                0 <= spread * 1_000_000_000 <= 1_073_741_824_000_000_000 * den,
                den > 0,
        ;
    }
    (spread * ONE as u128 / den) as u64
}

/// The numbers that 16-bit values stand for.
pub open spec fn ints(s: Seq<i16>) -> Seq<int> {
    s.map_values(|v: i16| v as int)
}

/// The variance of `values`, in billionths; zero if there are none.
pub fn variance(values: &Vec<i16>) -> (r: u64)
    requires
        values@.len() <= u32::MAX,
    ensures
        r == variance_of(ints(values@)),
{
    let mut sum: i64 = 0;
    let mut squares: u64 = 0;
    let n: usize = values.len();
    let ghost s = ints(values@);
    for i in 0..n
        invariant
            n == values@.len(),
            n <= u32::MAX,
            s == ints(values@),
            sum == total(s.take(i as int)),
            squares == total_squares(s.take(i as int)),
            -32768 * i <= sum <= 32768 * i,
            squares <= 1073741824 * i,
    {
        let v: i64 = values[i] as i64;
        assert(s.take(i + 1).drop_last() =~= s.take(i as int));
        assert(0 <= v * v <= 1073741824) by (nonlinear_arith)
            requires
                -32768 <= v <= 32767,
        ;
        sum = sum + v;
        squares = squares + (v * v) as u64;
    }
    assert(s.take(n as int) =~= s);
    variance_from_moments(n as u64, sum, squares, Ghost(s))
}

/// Each number counts once in the sum, and its square once in the sum of the
/// squares.
pub proof fn sums_add_up(s: Seq<int>, v: int)
    ensures
        total(Seq::empty()) == 0,
        total_squares(Seq::empty()) == 0,
        total(s.push(v)) == total(s) + v,
        total_squares(s.push(v)) == total_squares(s) + v * v,
{
    assert(s.push(v).drop_last() =~= s);
}

/// The variance is the mean of the squares less the square of the mean, in
/// billionths, rounded down.
pub proof fn variance_is_mean_square_less_squared_mean(s: Seq<int>)
    requires
        s.len() > 0,
    ensures
        s.len() * s.len() * variance_of(s) <= 1_000_000_000 * (s.len() * total_squares(s) - total(s)
            * total(s)) < s.len() * s.len() * (variance_of(s) + 1),
        variance_of(Seq::empty()) == 0,
{
    let n = s.len() as int;
    let x = n * total_squares(s) - total(s) * total(s);
    let r = variance_of(s);
    variance_from_sums(s);
    let den = n * n;
    assert(den > 0) by (nonlinear_arith)
        requires
            den == n * n,
            n > 0,
    ;
    assert(den * r <= 1_000_000_000 * x < den * (r + 1)) by (nonlinear_arith)
        requires
            r == x * 1_000_000_000 / den,
            den > 0,
    ;
}

proof fn shifted_sums(s: Seq<int>, c: int)
    ensures
        total(s.map_values(|v: int| v + c)) == total(s) + s.len() * c,
        total_squares(s.map_values(|v: int| v + c)) == total_squares(s) + 2 * (c * total(s))
            + s.len() * (c * c),
    decreases s.len(),
{
    let f = |v: int| v + c;
    let moved = s.map_values(f);
    if s.len() > 0 {
        let t = s.drop_last();
        let v = s.last();
        shifted_sums(t, c);
        assert(moved.drop_last() =~= t.map_values(f));
        let n = s.len() as int;
        let m = total(t);
        assert((n - 1) * c + c == n * c && (n - 1) * (c * c) + c * c == n * (c * c))
            by (nonlinear_arith);
        assert((v + c) * (v + c) == v * v + 2 * (c * v) + c * c) by (nonlinear_arith);
        assert(c * (m + v) == c * m + c * v) by (nonlinear_arith);
    } else {
        assert(0 * c == 0 && 0 * (c * c) == 0 && c * 0 == 0) by (nonlinear_arith);
    }
}

/// Adding the same number to all does not change how much they vary.
pub proof fn shifting_keeps_variance(s: Seq<int>, c: int)
    ensures
        variance_of(s.map_values(|v: int| v + c)) == variance_of(s),
{
    let moved = s.map_values(|v: int| v + c);
    if s.len() > 0 {
        let n = s.len() as int;
        let m = total(s);
        let q = total_squares(s);
        shifted_sums(s, c);
        variance_from_sums(s);
        variance_from_sums(moved);
        assert(n * (q + 2 * (c * m) + n * (c * c)) - (m + n * c) * (m + n * c) == n * q - m * m)
            by (nonlinear_arith);
    }
}

} // verus!
