//! Exact comparison of averages given as a total and a count.
//!
//! An average of no values counts as zero.

use vstd::prelude::*;
use vstd::arithmetic::div_mod::lemma_fundamental_div_mod;

verus! {

/// An average as a fraction `(numerator, positive denominator)`.
pub open spec fn as_fraction(total: int, count: nat) -> (int, int) {
    if count == 0 {
        (0, 1)
    } else {
        (total, count as int)
    }
}

/// The average `total1 / count1` is strictly below `total2 / count2`
/// (counts are non-negative; an empty average is zero).
pub open spec fn average_below(total1: int, count1: nat, total2: int, count2: nat) -> bool {
    let (n1, d1) = as_fraction(total1, count1);
    let (n2, d2) = as_fraction(total2, count2);
    n1 * d2 < n2 * d1
}

/// Comparing fractions through their integer and remainder parts.
proof fn lemma_compare_parts(n1: int, d1: int, q1: int, r1: int, n2: int, d2: int, q2: int, r2: int)
    requires
        d1 > 0,
        d2 > 0,
        n1 == q1 * d1 + r1,
        0 <= r1 < d1,
        n2 == q2 * d2 + r2,
        0 <= r2 < d2,
    ensures
        (n1 * d2 < n2 * d1) == (q1 < q2 || (q1 == q2 && r1 * d2 < r2 * d1)),
{
    assert(n1 * d2 == q1 * (d1 * d2) + r1 * d2) by (nonlinear_arith)
        requires n1 == q1 * d1 + r1;
    assert(n2 * d1 == q2 * (d1 * d2) + r2 * d1) by (nonlinear_arith)
        requires n2 == q2 * d2 + r2;
    assert(0 <= r1 * d2 < d1 * d2) by (nonlinear_arith)
        requires 0 <= r1 < d1, d2 > 0;
    assert(0 <= r2 * d1 < d1 * d2) by (nonlinear_arith)
        requires 0 <= r2 < d2, d1 > 0;
    let p = d1 * d2;
    if q1 < q2 {
        assert(q1 * p + p <= q2 * p) by (nonlinear_arith)
            requires q1 < q2, p > 0;
    } else if q1 > q2 {
        assert(q2 * p + p <= q1 * p) by (nonlinear_arith)
            requires q1 > q2, p > 0;
    }
}

/// The order of averages is transitive in its non-strict form.
pub proof fn lemma_average_not_below_transitive(t1: int, c1: nat, t2: int, c2: nat, t3: int, c3: nat)
    requires
        !average_below(t2, c2, t1, c1),
        !average_below(t3, c3, t2, c2),
    ensures
        !average_below(t3, c3, t1, c1),
{
    let (n1, d1) = as_fraction(t1, c1);
    let (n2, d2) = as_fraction(t2, c2);
    let (n3, d3) = as_fraction(t3, c3);
    assert(n1 * d3 <= n3 * d1) by (nonlinear_arith)
        requires
            d1 > 0,
            d2 > 0,
            d3 > 0,
            n1 * d2 <= n2 * d1,
            n2 * d3 <= n3 * d2,
    {
        assert(n1 * d2 * d3 <= n2 * d1 * d3);
        assert(n2 * d3 * d1 <= n3 * d2 * d1);
        assert((n1 * d3) * d2 <= (n3 * d1) * d2);
    }
}

/// An average below a second is below any average not below the second.
pub proof fn lemma_average_below_then_not_below(t1: int, c1: nat, t2: int, c2: nat, t3: int, c3: nat)
    requires
        average_below(t1, c1, t2, c2),
        !average_below(t3, c3, t2, c2),
    ensures
        average_below(t1, c1, t3, c3),
{
    let (n1, d1) = as_fraction(t1, c1);
    let (n2, d2) = as_fraction(t2, c2);
    let (n3, d3) = as_fraction(t3, c3);
    assert(n1 * d3 < n3 * d1) by (nonlinear_arith)
        requires
            d1 > 0,
            d2 > 0,
            d3 > 0,
            n1 * d2 < n2 * d1,
            n2 * d3 <= n3 * d2,
    {
        assert(n1 * d2 * d3 < n2 * d1 * d3);
        assert(n2 * d3 * d1 <= n3 * d2 * d1);
        assert((n1 * d3) * d2 < (n3 * d1) * d2);
    }
}

/// The order of averages is total: of two averages, one is not below the other.
pub proof fn lemma_average_below_asymmetric(t1: int, c1: nat, t2: int, c2: nat)
    ensures
        average_below(t1, c1, t2, c2) ==> !average_below(t2, c2, t1, c1),
{
}

/// Split `n` into `q * d + r` with `0 <= r < d`.
fn floor_parts(n: i128, d: u128) -> (r: (i128, u128))
    requires
        d > 0,
        n > i128::MIN,
    ensures
        n == r.0 * d + r.1,
        r.1 < d,
{
    if n >= 0 {
        let m = n as u128;
        let q = m / d;
        let rem = m % d;
        proof {
            lemma_fundamental_div_mod(m as int, d as int);
            assert(q <= m) by (nonlinear_arith)
                requires q == m as int / d as int, d > 0, m >= 0;
            assert(n == q * d + rem) by (nonlinear_arith)
                requires n == m, m == d * q + rem;
        }
        (q as i128, rem)
    } else {
        let m = (-n) as u128;
        let q = m / d;
        let rem = m % d;
        proof {
            lemma_fundamental_div_mod(m as int, d as int);
            assert(q <= m) by (nonlinear_arith)
                requires q == m as int / d as int, d > 0, m >= 0;
        }
        if rem == 0 {
            proof {
                assert(n == (-(q as int)) * d) by (nonlinear_arith)
                    requires n == -(m as int), m == d * q + 0;
            }
            (-(q as i128), 0)
        } else {
            proof {
                assert(n == (-(q as int) - 1) * d + (d - rem)) by (nonlinear_arith)
                    requires n == -(m as int), m == d * q + rem;
            }
            (-(q as i128) - 1, d - rem)
        }
    }
}

/// Decide whether the average `total1 / count1` is strictly below
/// `total2 / count2`, exactly, where an empty average is zero.
pub fn average_less(total1: i128, count1: usize, total2: i128, count2: usize) -> (b: bool)
    requires
        total1 > i128::MIN,
        total2 > i128::MIN,
    ensures
        b == average_below(total1 as int, count1 as nat, total2 as int, count2 as nat),
{
    let (n1, d1): (i128, u128) = if count1 == 0 { (0, 1) } else { (total1, count1 as u128) };
    let (n2, d2): (i128, u128) = if count2 == 0 { (0, 1) } else { (total2, count2 as u128) };
    let (q1, r1) = floor_parts(n1, d1);
    let (q2, r2) = floor_parts(n2, d2);
    proof {
        lemma_compare_parts(n1 as int, d1 as int, q1 as int, r1 as int, n2 as int, d2 as int, q2 as int, r2 as int);
    }
    if q1 != q2 {
        q1 < q2
    } else {
        assert(r1 * d2 <= u128::MAX) by (nonlinear_arith)
            requires r1 < d1, d1 <= usize::MAX, d2 <= usize::MAX, usize::MAX <= u64::MAX;
        assert(r2 * d1 <= u128::MAX) by (nonlinear_arith)
            requires r2 < d2, d1 <= usize::MAX, d2 <= usize::MAX, usize::MAX <= u64::MAX;
        r1 * d2 < r2 * d1
    }
}

} // verus!
