//! The display rounding rule for station summaries.
//!
//! A station's mean is shown with one decimal digit, rounded by adding
//! `0.49` to the mean expressed in tenths and taking the floor — all of it
//! exact integer arithmetic on the stored sum and count.

use vstd::prelude::*;
use vstd::arithmetic::div_mod::{lemma_fundamental_div_mod, lemma_mod_division_less_than_divisor};

verus! {

/// The displayed tenths of a station's mean: the floor of
/// `sum / count + 49/100`, written over the common denominator
/// `100 * count`.
pub open spec fn spec_mean_tenths(sum: int, count: int) -> int
    recommends
        count >= 1,
{
    (100 * sum + 49 * count) / (100 * count)
}

/// Euclidean division by a positive divisor is pinned by its floor bounds.
proof fn lemma_floor_div(num: int, den: int, q: int)
    requires
        den > 0,
        den * q <= num,
        num < den * (q + 1),
    ensures
        num / den == q,
{
    lemma_fundamental_div_mod(num, den);
    lemma_mod_division_less_than_divisor(num, den);
    assert(num / den == q) by (nonlinear_arith)
        requires
            den > 0,
            den * q <= num,
            num < den * (q + 1),
            num == den * (num / den) + num % den,
            0 <= num % den < den,
    ;
}

/// The displayed tenths of the mean of `count` records summing to `sum`,
/// each record within the format's range.
pub fn mean_tenths(sum: i128, count: usize) -> (m: isize)
    requires
        1 <= count,
        -999 * count <= sum <= 999 * count,
    ensures
        m == spec_mean_tenths(sum as int, count as int),
        -999 <= m <= 999,
{
    let num: i128 = 100 * sum + 49 * (count as i128);
    let den: i128 = 100 * (count as i128);
    let ghost ni = num as int;
    let ghost di = den as int;
    proof {
        assert(ni < 1000 * di && -999 * di <= ni) by (nonlinear_arith)
            requires
                ni == 100 * (sum as int) + 49 * (count as int),
                di == 100 * (count as int),
                1 <= count as int,
                -999 * (count as int) <= sum as int <= 999 * (count as int),
        ;
    }
    if num >= 0 {
        let uq: u128 = (num as u128) / (den as u128);
        proof {
            lemma_fundamental_div_mod(ni, di);
            lemma_mod_division_less_than_divisor(ni, di);
            assert(uq as int == ni / di);
            assert(ni / di < 1000 && 0 <= ni / di) by (nonlinear_arith)
                requires
                    di > 0,
                    0 <= ni < 1000 * di,
                    ni == di * (ni / di) + ni % di,
                    0 <= ni % di < di,
            ;
        }
        uq as isize
    } else {
        let a: u128 = (-num) as u128;
        let uq: u128 = (a + (den as u128) - 1) / (den as u128);
        let ghost ai = a as int;
        let ghost c = uq as int;
        proof {
            lemma_fundamental_div_mod(ai + di - 1, di);
            lemma_mod_division_less_than_divisor(ai + di - 1, di);
            assert(di * (c - 1) < ai && ai <= di * c) by (nonlinear_arith)
                requires
                    di > 0,
                    ai >= 1,
                    ai + di - 1 == di * c + (ai + di - 1) % di,
                    0 <= (ai + di - 1) % di < di,
            ;
            assert(di * (-c) <= ni && ni < di * (-c + 1)) by (nonlinear_arith)
                requires
                    ni == -ai,
                    di * (c - 1) < ai,
                    ai <= di * c,
            ;
            lemma_floor_div(ni, di, -c);
            assert(0 < c <= 999) by (nonlinear_arith)
                requires
                    di > 0,
                    di * (c - 1) < ai,
                    ai <= di * c,
                    ai <= 999 * di,
                    ai >= 1,
            ;
        }
        -((uq as i128) as isize)
    }
}

} // verus!
